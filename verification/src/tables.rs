//! The tables through which the control plane steers the data plane, and the
//! writes that the control plane makes to them.

use vstd::prelude::*;
use std::collections::HashMap;
use crate::common::{BUFFERS, CTRL_ACTIVE, CTRL_LEN, M, N, Node, RateState, STATS_LEN};

verus! {

broadcast use vstd::std_specs::hash::group_hash_axioms;

/// Number of load-balanced ports the port table can hold.
pub const MAX_PORTS: usize = 64;

/// Contents of the data plane's tables.
///
/// * `ports`: destination ports that are load-balanced.
/// * `ctrl`: control values, by `CTRL_*` index.
/// * `route`: Maglev lookup tables, `[buffer 0 | buffer 1]`, each `M` long; a
///   slot holds a *global* backend id (`buffer * N + local`).
/// * `backends`: backends of both buffers, by global id.
/// * `blocklist`: blacklisted sources, with the time (ns) the block expires.
/// * `rate`: packet numbers of the sources seen.
/// * `valid_times`, `malformed_times`: when their packets came in (ns), by source and
///   packet number.
/// * `stats`: counters, by `STAT_*` index.
///
/// `blocklist`, `rate` and the times hold every source and packet here. The
/// kernel's maps are bounded and may forget what was used longest ago.
pub struct Tables {
    pub ports: HashMap<u16, u8>,
    pub ctrl: Vec<u32>,
    pub route: Vec<u32>,
    pub backends: HashMap<u32, Node>,
    pub blocklist: HashMap<u32, u64>,
    pub rate: HashMap<u32, RateState>,
    pub valid_times: HashMap<u64, u64>,
    pub malformed_times: HashMap<u64, u64>,
    pub stats: Vec<u64>,
}

/// The place of Maglev slot `h` of buffer `active` in the route table.
pub open spec fn route_index(active: u32, h: u32) -> u32 {
    active.wrapping_mul(M).wrapping_add(h)
}

/// The place of Maglev slot `h` of buffer `active` in the route table.
pub fn route_slot(active: u32, h: u32) -> (slot: u32)
    ensures
        slot == route_index(active, h),
{
    active.wrapping_mul(M).wrapping_add(h)
}

/// The mathematical contents of [`Tables`].
#[verifier::ext_equal]
pub struct TablesView {
    pub ports: Set<u16>,
    pub ctrl: Seq<u32>,
    pub route: Seq<u32>,
    pub backends: Map<u32, Node>,
    pub blocklist: Map<u32, u64>,
    pub rate: Map<u32, RateState>,
    pub valid_times: Map<u64, u64>,
    pub malformed_times: Map<u64, u64>,
    pub stats: Seq<u64>,
}

/// One write of the control plane.
#[derive(Debug, Clone, Copy)]
pub enum MapOp {
    SetCtrl { index: u32, value: u32 },
    SetRoute { slot: u32, value: u32 },
    InsertBackend { id: u32, node: Node },
    InsertPort { port: u16 },
    RemovePort { port: u16 },
}

impl MapOp {
    /// Whether a failure of this write matters. A port that is to be removed may
    /// be gone already.
    pub open spec fn required(self) -> bool {
        !(self is RemovePort)
    }

    /// Whether a failure of this write matters.
    pub fn is_required(&self) -> (b: bool)
        ensures
            b == self.required(),
    {
        match self {
            MapOp::RemovePort { .. } => false,
            _ => true,
        }
    }
}

impl View for Tables {
    type V = TablesView;

    open spec fn view(&self) -> TablesView {
        TablesView {
            ports: self.ports@.dom(),
            ctrl: self.ctrl@,
            route: self.route@,
            backends: self.backends@,
            blocklist: self.blocklist@,
            rate: self.rate@,
            valid_times: self.valid_times@,
            malformed_times: self.malformed_times@,
            stats: self.stats@,
        }
    }
}

impl TablesView {
    /// Tables as they are when the data plane is loaded: zeroed arrays, no keys.
    pub open spec fn fresh() -> TablesView {
        TablesView {
            ports: Set::empty(),
            ctrl: Seq::new(CTRL_LEN as nat, |i: int| 0u32),
            route: Seq::new((M * BUFFERS) as nat, |i: int| 0u32),
            backends: Map::empty(),
            blocklist: Map::empty(),
            rate: Map::empty(),
            valid_times: Map::empty(),
            malformed_times: Map::empty(),
            stats: Seq::new(STATS_LEN as nat, |i: int| 0u64),
        }
    }

    /// The fixed sizes of the tables.
    pub open spec fn wf(self) -> bool {
        &&& self.ports.finite()
        &&& self.ports.len() <= MAX_PORTS
        &&& self.ctrl.len() == CTRL_LEN
        &&& self.route.len() == M * BUFFERS
        &&& self.stats.len() == STATS_LEN
        &&& self.backends.dom().finite()
        &&& self.backends.dom().len() <= N * BUFFERS
    }

    /// Every backend id belongs to one of the buffers, so that the id `u32::MAX`
    /// of an empty Maglev slot leads nowhere.
    pub open spec fn ids_in_buffers(self) -> bool {
        forall|id: u32| #[trigger] self.backends.contains_key(id) ==> id < N * BUFFERS
    }

    /// Control value `index`; `0` if there is no such slot.
    pub open spec fn ctrl_value(self, index: u32) -> u32 {
        if index < self.ctrl.len() {
            self.ctrl[index as int]
        } else {
            0
        }
    }

    /// The backend that Maglev slot `h` leads to in the active buffer.
    pub open spec fn lookup(self, h: u32) -> Option<Node> {
        let slot = route_index(self.ctrl_value(CTRL_ACTIVE), h);
        if slot < self.route.len() && self.backends.contains_key(self.route[slot as int]) {
            Some(self.backends[self.route[slot as int]])
        } else {
            None
        }
    }

    /// The tables with statistic `index` counted up by one.
    pub open spec fn bumped(self, index: u32) -> TablesView {
        if index < self.stats.len() {
            TablesView {
                stats: self.stats.update(
                    index as int,
                    self.stats[index as int].wrapping_add(1),
                ),
                ..self
            }
        } else {
            self
        }
    }

    /// Whether a write is accepted: array slots must exist, and a table that is
    /// full takes no new key. Removing needs something to remove.
    pub open spec fn accepts(self, op: MapOp) -> bool {
        match op {
            MapOp::SetCtrl { index, .. } => index < self.ctrl.len(),
            MapOp::SetRoute { slot, .. } => slot < self.route.len(),
            MapOp::InsertBackend { id, .. } => self.backends.contains_key(id)
                || self.backends.dom().len() < N * BUFFERS,
            MapOp::InsertPort { port } => self.ports.contains(port) || self.ports.len()
                < MAX_PORTS,
            MapOp::RemovePort { port } => self.ports.contains(port),
        }
    }

    /// The tables after a write; a write that is not accepted changes nothing.
    pub open spec fn performed(self, op: MapOp) -> TablesView {
        if !self.accepts(op) {
            self
        } else {
            match op {
                MapOp::SetCtrl { index, value } => TablesView {
                    ctrl: self.ctrl.update(index as int, value),
                    ..self
                },
                MapOp::SetRoute { slot, value } => TablesView {
                    route: self.route.update(slot as int, value),
                    ..self
                },
                MapOp::InsertBackend { id, node } => TablesView {
                    backends: self.backends.insert(id, node),
                    ..self
                },
                MapOp::InsertPort { port } => TablesView {
                    ports: self.ports.insert(port),
                    ..self
                },
                MapOp::RemovePort { port } => TablesView {
                    ports: self.ports.remove(port),
                    ..self
                },
            }
        }
    }

    /// The tables after a sequence of writes.
    pub open spec fn performed_all(self, ops: Seq<MapOp>) -> TablesView
        decreases ops.len(),
    {
        if ops.len() == 0 {
            self
        } else {
            self.performed_all(ops.drop_last()).performed(ops.last())
        }
    }
}

impl Tables {
    pub open spec fn wf(&self) -> bool {
        self@.wf()
    }

    /// Tables as they are when the data plane is loaded: zeroed arrays, no keys.
    pub fn new() -> (t: Self)
        ensures
            t.wf(),
            t@.ids_in_buffers(),
            t@ == TablesView::fresh(),
    {
        let t = Tables {
            ports: HashMap::new(),
            ctrl: vec![0; CTRL_LEN as usize],
            route: vec![0; (M * BUFFERS) as usize],
            backends: HashMap::new(),
            blocklist: HashMap::new(),
            rate: HashMap::new(),
            valid_times: HashMap::new(),
            malformed_times: HashMap::new(),
            stats: vec![0; STATS_LEN as usize],
        };
        assert(t@ =~= TablesView::fresh());
        t
    }

    /// Control value `idx`; `0` if there is no such slot.
    pub fn ctrl(&self, idx: u32) -> (value: u32)
        ensures
            value == self@.ctrl_value(idx),
    {
        if (idx as usize) < self.ctrl.len() {
            self.ctrl[idx as usize]
        } else {
            0
        }
    }

    /// Count statistic `idx` up by one.
    pub fn stat(&mut self, idx: u32)
        ensures
            final(self)@ == old(self)@.bumped(idx),
    {
        if (idx as usize) < self.stats.len() {
            let next: u64 = self.stats[idx as usize].wrapping_add(1);
            self.stats.set(idx as usize, next);
        }
    }

    /// Whether `port` is load-balanced.
    pub fn is_listed(&self, port: u16) -> (b: bool)
        ensures
            b == self@.ports.contains(port),
    {
        self.ports.contains_key(&port)
    }

    /// The backend that Maglev slot `h` leads to in the active buffer.
    pub fn lookup(&self, h: u32) -> (node: Option<Node>)
        ensures
            node == self@.lookup(h),
    {
        let slot: u32 = route_slot(self.ctrl(CTRL_ACTIVE), h);
        if (slot as usize) < self.route.len() {
            match self.backends.get(&self.route[slot as usize]) {
                Some(node) => Some(*node),
                None => None,
            }
        } else {
            None
        }
    }

    /// Perform one write. Returns whether it was accepted.
    pub fn perform(&mut self, op: &MapOp) -> (accepted: bool)
        requires
            old(self).wf(),
        ensures
            final(self).wf(),
            accepted == old(self)@.accepts(*op),
            final(self)@ == old(self)@.performed(*op),
    {
        match *op {
            MapOp::SetCtrl { index, value } => {
                if (index as usize) < self.ctrl.len() {
                    self.ctrl.set(index as usize, value);
                    true
                } else {
                    false
                }
            },
            MapOp::SetRoute { slot, value } => {
                if (slot as usize) < self.route.len() {
                    self.route.set(slot as usize, value);
                    true
                } else {
                    false
                }
            },
            MapOp::InsertBackend { id, node } => {
                if self.backends.contains_key(&id) || self.backends.len() < (N * BUFFERS) as usize {
                    self.backends.insert(id, node);
                    true
                } else {
                    false
                }
            },
            MapOp::InsertPort { port } => {
                if self.ports.contains_key(&port) || self.ports.len() < MAX_PORTS {
                    self.ports.insert(port, 1);
                    assert(self@.ports =~= old(self)@.ports.insert(port));
                    true
                } else {
                    false
                }
            },
            MapOp::RemovePort { port } => {
                if self.ports.contains_key(&port) {
                    self.ports.remove(&port);
                    assert(self@.ports =~= old(self)@.ports.remove(port));
                    true
                } else {
                    false
                }
            },
        }
    }
}

/// Law: a lookup reads the slot of the active buffer, and gives the backend whose id
/// stands there.
pub proof fn lookups_read_the_active_buffer(t: TablesView, h: u32)
    requires
        t.ctrl.len() == 8,
        t.route.len() == 131074,
        t.ctrl[0] < 2,
        h < 65537,
    ensures
        ({
            let id = t.route[t.ctrl[0] * 65537 + h];
            t.lookup(h) == (if t.backends.contains_key(id) {
                Some(t.backends[id])
            } else {
                None
            })
        }),
{
    assert(route_index(t.ctrl[0], h) == t.ctrl[0] * 65537 + h);
}

/// Law: a write that is accepted changes the one entry it names and nothing else, and one
/// that is not accepted changes nothing. The arrays accept every index they have, and
/// the tables of backends and of ports accept a new key until they hold 1300 and 64.
pub proof fn writes_change_one_entry(t: TablesView, op: MapOp)
    requires
        t.wf(),
    ensures
        match op {
            MapOp::SetCtrl { index, value } => {
                &&& t.accepts(op) <==> index < 8
                &&& index < 8 ==> t.performed(op) == (TablesView {
                    ctrl: t.ctrl.update(index as int, value),
                    ..t
                })
            },
            MapOp::SetRoute { slot, value } => {
                &&& t.accepts(op) <==> slot < 131074
                &&& slot < 131074 ==> t.performed(op) == (TablesView {
                    route: t.route.update(slot as int, value),
                    ..t
                })
            },
            MapOp::InsertBackend { id, node } => {
                &&& t.accepts(op) <==> t.backends.contains_key(id) || t.backends.dom().len() < 1300
                &&& t.accepts(op) ==> t.performed(op) == (TablesView {
                    backends: t.backends.insert(id, node),
                    ..t
                })
            },
            MapOp::InsertPort { port } => {
                &&& t.accepts(op) <==> t.ports.contains(port) || t.ports.len() < 64
                &&& t.accepts(op) ==> t.performed(op) == (TablesView {
                    ports: t.ports.insert(port),
                    ..t
                })
            },
            MapOp::RemovePort { port } => {
                &&& t.accepts(op) <==> t.ports.contains(port)
                &&& t.accepts(op) ==> t.performed(op) == (TablesView {
                    ports: t.ports.remove(port),
                    ..t
                })
            },
        },
        !t.accepts(op) ==> t.performed(op) == t,
        op.required() <==> !(op is RemovePort),
{
}

/// Law: a series of writes is performed one by one, in its order.
pub proof fn writes_are_performed_in_order(t: TablesView, ops: Seq<MapOp>, op: MapOp)
    ensures
        t.performed_all(Seq::empty()) == t,
        t.performed_all(ops.push(op)) == t.performed_all(ops).performed(op),
{
    assert(ops.push(op).drop_last() =~= ops);
}

/// Law: freshly loaded tables hold zeroes and no keys, in arrays of 8 control values,
/// twice 65537 slots and 8 counters.
pub proof fn fresh_tables_are_empty()
    ensures
        ({
            let t = TablesView::fresh();
            &&& t.wf()
            &&& t.ctrl == Seq::new(8, |i: int| 0u32)
            &&& t.route == Seq::new(131074, |i: int| 0u32)
            &&& t.stats == Seq::new(8, |i: int| 0u64)
            &&& t.ports == Set::<u16>::empty()
            &&& t.backends == Map::<u32, Node>::empty()
            &&& t.blocklist == Map::<u32, u64>::empty()
            &&& t.rate == Map::<u32, RateState>::empty()
            &&& t.valid_times == Map::<u64, u64>::empty()
            &&& t.malformed_times == Map::<u64, u64>::empty()
        }),
{
}

/// Law: a statistic is counted up by one, and nothing else changes.
pub proof fn counting_adds_one(t: TablesView, index: u32)
    requires
        index < t.stats.len(),
        t.stats[index as int] < u64::MAX,
    ensures
        t.bumped(index) == (TablesView {
            stats: t.stats.update(index as int, (t.stats[index as int] + 1) as u64),
            ..t
        }),
{
}

/// Law: a control value is read as it stands, and is zero where there is none. A slot is
/// looked up at its place in the active buffer, in 32-bit arithmetic.
pub proof fn tables_are_read_as_they_stand(t: TablesView, index: u32, h: u32)
    ensures
        index < t.ctrl.len() ==> t.ctrl_value(index) == t.ctrl[index as int],
        index >= t.ctrl.len() ==> t.ctrl_value(index) == 0,
        ({
            let place = (t.ctrl_value(0) * 65537 + h) % 0x1_0000_0000;
            let found = place < t.route.len() && t.backends.contains_key(t.route[place]);
            &&& found ==> t.lookup(h) == Some(t.backends[t.route[place]])
            &&& !found ==> t.lookup(h) is None
        }),
{
    let active = t.ctrl_value(0);
    let product = active * 65537;
    assert((product % 0x1_0000_0000 + h) % 0x1_0000_0000 == (product + h) % 0x1_0000_0000);
    assert(route_index(active, h) == (product + h) % 0x1_0000_0000);
}

} // verus!
