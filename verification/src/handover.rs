//! What the control plane's writes do to the data plane: a reload never touches
//! what the data plane is reading, and takes effect in one step.

use vstd::prelude::*;
use vstd::relations::injective_on;
use vstd::set_lib::*;
use crate::backend::Backend;
use crate::common::{BUFFERS, CTRL_ACTIVE, CTRL_DROP_UNMATCHED, M, N, Node};
use crate::config::ProtectionSettings;
use crate::dataplane::{
    apply_ops, backend_ops, drop_unmatched_ops, global_id, node_of, outside, port_ops, ports_on_record, protection_ops,
    route_ops, standby_of, startup_ops,
};
use crate::forward::{after_frames, each_packet_is_counted_once, limits_of, outcome};
use crate::tables::{MapOp, TablesView, MAX_PORTS};

verus! {

/// The data plane reads buffer `active`, and that buffer leads only to its own
/// backends.
pub open spec fn steady(t: TablesView, active: u32) -> bool {
    &&& active < BUFFERS
    &&& t.wf()
    &&& t.ids_in_buffers()
    &&& t.ctrl_value(CTRL_ACTIVE) == active
    &&& forall|h: int|
        0 <= h < M ==> in_buffer(active, #[trigger] t.route[active * M + h])
}

/// `id` marks an empty slot or is one of the backend ids of `buffer`.
pub open spec fn in_buffer(buffer: u32, id: u32) -> bool {
    id == u32::MAX || buffer * N <= id < buffer * N + N
}

/// The entries of a Maglev table are local backend indices or mark empty slots.
pub open spec fn table_fits(table: Seq<u32>, backends: Seq<Backend>) -> bool {
    &&& table.len() == M
    &&& backends.len() <= N
    &&& forall|h: int|
        0 <= h < M ==> #[trigger] table[h] == u32::MAX || table[h] < backends.len()
}

/// The backend that slot `h` of a Maglev table stands for.
pub open spec fn table_node(table: Seq<u32>, backends: Seq<Backend>, h: int) -> Option<Node> {
    if table[h] == u32::MAX {
        None
    } else {
        Some(node_of(backends[table[h] as int]))
    }
}

/// `u` differs from `t` at most in the buffer that is not `active`.
spec fn standby_only(t: TablesView, u: TablesView, active: u32) -> bool {
    let standby = standby_of(active);
    &&& u.wf()
    &&& u.ids_in_buffers()
    &&& u.ctrl == t.ctrl
    &&& u.ports == t.ports
    &&& forall|h: int|
        0 <= h < M ==> #[trigger] u.route[active * M + h] == t.route[active * M + h]
    &&& forall|id: u32|
        !(standby * N <= id < standby * N + N) ==> (#[trigger] u.backends.contains_key(id)
            <==> t.backends.contains_key(id))
    &&& forall|id: u32|
        !(standby * N <= id < standby * N + N) && t.backends.contains_key(id)
            ==> #[trigger] u.backends[id] == t.backends[id]
}

/// The first `k` writes have arrived in buffer `standby`.
spec fn filled(
    u: TablesView,
    standby: u32,
    backends: Seq<Backend>,
    table: Seq<u32>,
    k: int,
) -> bool {
    &&& forall|i: int|
        0 <= i < backends.len() && i < k ==> #[trigger] u.backends.contains_key(
            (standby * N + i) as u32,
        ) && u.backends[(standby * N + i) as u32] == node_of(backends[i])
    &&& forall|s: int|
        0 <= s < M && backends.len() + s < k ==> #[trigger] u.route[standby * M + s] == global_id(
            standby,
            table[s],
        )
}

proof fn lemma_performed_take(t: TablesView, ops: Seq<MapOp>, k: int)
    requires
        0 <= k < ops.len(),
    ensures
        t.performed_all(ops.take(k + 1)) == t.performed_all(ops.take(k)).performed(ops[k]),
{
    assert(ops.take(k + 1).drop_last() =~= ops.take(k));
}

/// A backend table whose ids all lie in the buffers has room for any such id.
proof fn lemma_room_for_backend(t: TablesView, id: u32)
    requires
        t.wf(),
        t.ids_in_buffers(),
        id < N * BUFFERS,
        !t.backends.contains_key(id),
    ensures
        t.backends.dom().len() < N * BUFFERS,
{
    let keys = t.backends.dom().insert(id);
    let f = |x: u32| x as int;
    let ints = keys.map(f);
    let range = set_int_range(0, (N * BUFFERS) as int);
    lemma_int_range(0, (N * BUFFERS) as int);
    assert(injective_on(f, keys)) by {
        assert forall|a: u32, b: u32|
            keys.contains(a) && keys.contains(b) && #[trigger] f(a) == #[trigger] f(b) implies a
            == b by {}
    }
    lemma_map_size(keys, ints, f);
    assert(ints.subset_of(range)) by {
        assert forall|x: int| ints.contains(x) implies range.contains(x) by {
            let a = choose|a: u32| keys.contains(a) && f(a) == x;
            if a != id {
                assert(t.backends.contains_key(a));
            }
        }
    }
    lemma_len_subset(ints, range);
}

proof fn lemma_standby_write(
    t: TablesView,
    u: TablesView,
    active: u32,
    backends: Seq<Backend>,
    table: Seq<u32>,
    k: int,
)
    requires
        active < BUFFERS,
        table.len() == M,
        backends.len() <= N,
        0 <= k < backends.len() + M,
        standby_only(t, u, active),
        filled(u, standby_of(active), backends, table, k),
    ensures
        standby_only(t, u.performed(apply_ops(active, backends, table)[k]), active),
        filled(
            u.performed(apply_ops(active, backends, table)[k]),
            standby_of(active),
            backends,
            table,
            k + 1,
        ),
{
    let standby = standby_of(active);
    let op = apply_ops(active, backends, table)[k];
    let v = u.performed(op);
    if k < backends.len() {
        let id = (standby * N + k) as u32;
        assert(op == backend_ops(standby, backends)[k]);
        assert(op == (MapOp::InsertBackend { id, node: node_of(backends[k]) }));
        if !u.backends.contains_key(id) {
            lemma_room_for_backend(u, id);
        }
        assert(v.route == u.route && v.ctrl == u.ctrl && v.ports == u.ports);
        assert(v.backends == u.backends.insert(id, node_of(backends[k])));
        assert(v.backends.dom() =~= u.backends.dom().insert(id));
        if u.backends.contains_key(id) {
            assert(v.backends.dom() =~= u.backends.dom());
        }
        assert forall|i: int| 0 <= i < backends.len() && i < k + 1 implies #[trigger]
        v.backends.contains_key((standby * N + i) as u32) && v.backends[(standby * N + i) as u32]
            == node_of(backends[i]) by {
            if i != k {
                assert(u.backends.contains_key((standby * N + i) as u32));
            }
        }
    } else {
        let s = k - backends.len();
        let slot = (standby * M + s) as u32;
        assert(op == route_ops(standby, table)[s]);
        assert(op == (MapOp::SetRoute { slot, value: global_id(standby, table[s]) }));
        assert(v.backends == u.backends && v.ctrl == u.ctrl && v.ports == u.ports);
        assert(v.route == u.route.update(slot as int, global_id(standby, table[s])));
        assert forall|i: int| 0 <= i < M && backends.len() + i < k + 1 implies #[trigger]
        v.route[standby * M + i] == global_id(standby, table[i]) by {
            if i != s {
                assert(u.route[standby * M + i] == global_id(standby, table[i]));
            }
        }
        assert forall|h: int| 0 <= h < M implies #[trigger] v.route[active * M + h]
            == t.route[active * M + h] by {
            assert(u.route[active * M + h] == t.route[active * M + h]);
        }
        assert forall|i: int| 0 <= i < backends.len() && i < k + 1 implies #[trigger]
        v.backends.contains_key((standby * N + i) as u32) && v.backends[(standby * N + i) as u32]
            == node_of(backends[i]) by {
            assert(u.backends.contains_key((standby * N + i) as u32));
        }
    }
}

/// What holds while the standby buffer is being filled.
proof fn lemma_filling(
    t: TablesView,
    active: u32,
    backends: Seq<Backend>,
    table: Seq<u32>,
    k: int,
)
    requires
        steady(t, active),
        table.len() == M,
        backends.len() <= N,
        0 <= k <= backends.len() + M,
    ensures
        standby_only(t, t.performed_all(apply_ops(active, backends, table).take(k)), active),
        filled(
            t.performed_all(apply_ops(active, backends, table).take(k)),
            standby_of(active),
            backends,
            table,
            k,
        ),
    decreases k,
{
    let ops = apply_ops(active, backends, table);
    if k > 0 {
        lemma_filling(t, active, backends, table, k - 1);
        lemma_performed_take(t, ops, k - 1);
        lemma_standby_write(
            t,
            t.performed_all(ops.take(k - 1)),
            active,
            backends,
            table,
            k - 1,
        );
    }
}

/// The slot arithmetic of a lookup in a known buffer.
proof fn lemma_lookup(t: TablesView, active: u32, h: u32)
    requires
        active < BUFFERS,
        t.wf(),
        t.ctrl_value(CTRL_ACTIVE) == active,
        h < M,
    ensures
        t.lookup(h) == (if t.backends.contains_key(t.route[active * M + h]) {
            Some(t.backends[t.route[active * M + h]])
        } else {
            None
        }),
{
    assert(active * M + h < M * BUFFERS);
    assert(active.wrapping_mul(M) == active * M) by {
        vstd::arithmetic::div_mod::lemma_small_mod((active * M) as nat, 0x1_0000_0000);
    }
}

/// Law: until the very last of its writes, applying a backend set changes nothing
/// that the data plane sees. Every slot keeps leading where it led.
pub proof fn nothing_changes_before_the_flip(
    t: TablesView,
    active: u32,
    backends: Seq<Backend>,
    table: Seq<u32>,
    k: int,
    h: u32,
)
    requires
        steady(t, active),
        table.len() == M,
        backends.len() <= N,
        0 <= k < apply_ops(active, backends, table).len(),
        h < M,
    ensures
        t.performed_all(apply_ops(active, backends, table).take(k)).lookup(h) == t.lookup(h),
        steady(t.performed_all(apply_ops(active, backends, table).take(k)), active),
{
    let u = t.performed_all(apply_ops(active, backends, table).take(k));
    lemma_filling(t, active, backends, table, k);
    lemma_lookup(t, active, h);
    lemma_lookup(u, active, h);
    let id = t.route[active * M + h];
    assert(in_buffer(active, id));
    assert(u.route[active * M + h] == id);
    assert(u.backends.contains_key(id) <==> t.backends.contains_key(id));
    if t.backends.contains_key(id) {
        assert(u.backends[id] == t.backends[id]);
    }
    assert forall|i: int| 0 <= i < M implies in_buffer(
        active,
        #[trigger] u.route[active * M + i],
    ) by {
        assert(u.route[active * M + i] == t.route[active * M + i]);
        assert(in_buffer(active, t.route[active * M + i]));
    }
}

/// Law: the last write brings the whole of the new backend set into effect at
/// once. Every slot then leads to the backend the new table names, or nowhere if
/// the table leaves it empty, and the tables are ready for the next reload.
pub proof fn the_flip_installs_the_new_table(
    t: TablesView,
    active: u32,
    backends: Seq<Backend>,
    table: Seq<u32>,
    h: u32,
)
    requires
        steady(t, active),
        table_fits(table, backends),
        h < M,
    ensures
        t.performed_all(apply_ops(active, backends, table)).lookup(h) == table_node(
            table,
            backends,
            h as int,
        ),
        steady(t.performed_all(apply_ops(active, backends, table)), standby_of(active)),
        t.performed_all(apply_ops(active, backends, table)).ports == t.ports,
{
    let standby = standby_of(active);
    let ops = apply_ops(active, backends, table);
    let n = ops.len() - 1;
    let u = t.performed_all(ops.take(n));
    let v = t.performed_all(ops);
    lemma_filling(t, active, backends, table, n);
    lemma_performed_take(t, ops, n);
    assert(ops.take(ops.len() as int) =~= ops);
    assert(ops[n] == (MapOp::SetCtrl { index: CTRL_ACTIVE, value: standby }));
    assert(v.ctrl == u.ctrl.update(CTRL_ACTIVE as int, standby));
    assert forall|i: int| 0 <= i < M implies in_buffer(
        standby,
        #[trigger] v.route[standby * M + i],
    ) && v.route[standby * M + i] == global_id(standby, table[i]) by {
        assert(u.route[standby * M + i] == global_id(standby, table[i]));
        assert(table[i] == u32::MAX || table[i] < backends.len());
    }
    assert(steady(v, standby));
    lemma_lookup(v, standby, h);
    let local = table[h as int];
    assert(v.route[standby * M + h] == global_id(standby, local));
    if local == u32::MAX {
        assert(!v.backends.contains_key(u32::MAX)) by {
            if v.backends.contains_key(u32::MAX) {
                assert(u.backends.contains_key(u32::MAX));
            }
        }
    } else {
        assert(local < backends.len());
        assert(u.backends.contains_key((standby * N + local as int) as u32));
    }
}

/// The tables after the first `k` of the control plane's writes, with traffic before,
/// between and after them: `traffic[i]` is what comes in between `i` writes and the
/// next.
pub open spec fn under_traffic(
    t: TablesView,
    ops: Seq<MapOp>,
    traffic: Seq<Seq<(Seq<u8>, u64)>>,
    k: nat,
) -> TablesView
    decreases k,
{
    if k == 0 {
        after_frames(traffic[0], t)
    } else {
        after_frames(
            traffic[k as int],
            under_traffic(t, ops, traffic, (k - 1) as nat).performed(ops[k - 1]),
        )
    }
}

/// The tables agree in what the control plane writes.
pub open spec fn same_programming(a: TablesView, b: TablesView) -> bool {
    &&& a.ports == b.ports
    &&& a.ctrl == b.ctrl
    &&& a.route == b.route
    &&& a.backends == b.backends
    &&& a.stats.len() == b.stats.len()
}

/// The tables agree in what the data plane records.
pub open spec fn same_records(a: TablesView, b: TablesView) -> bool {
    &&& a.blocklist == b.blocklist
    &&& a.rate == b.rate
    &&& a.valid_times == b.valid_times
    &&& a.malformed_times == b.malformed_times
    &&& a.stats == b.stats
}

/// Law: a frame leaves what the control plane has written alone, and a write leaves
/// what the data plane has recorded alone.
pub proof fn frames_and_writes_keep_apart(f: Seq<u8>, t: TablesView, now: u64, op: MapOp)
    ensures
        same_programming(outcome(f, t, now).tables, t),
        same_records(t.performed(op), t),
{
}

proof fn lemma_frames_keep_programming(frames: Seq<(Seq<u8>, u64)>, t: TablesView)
    ensures
        same_programming(after_frames(frames, t), t),
    decreases frames.len(),
{
    if frames.len() > 0 {
        let rest = frames.drop_last();
        lemma_frames_keep_programming(rest, t);
        frames_and_writes_keep_apart(
            frames.last().0,
            after_frames(rest, t),
            frames.last().1,
            MapOp::RemovePort { port: 0 },
        );
    }
}

/// What a write does to what the control plane writes depends on that alone.
proof fn lemma_same_write(a: TablesView, b: TablesView, op: MapOp)
    requires
        same_programming(a, b),
    ensures
        same_programming(a.performed(op), b.performed(op)),
        a.accepts(op) == b.accepts(op),
{
}

/// Law: the control plane's writes come to the same whatever traffic comes in between
/// them.
pub proof fn writes_take_effect_under_traffic(
    t: TablesView,
    ops: Seq<MapOp>,
    traffic: Seq<Seq<(Seq<u8>, u64)>>,
    k: nat,
)
    requires
        k <= ops.len(),
    ensures
        same_programming(
            under_traffic(t, ops, traffic, k),
            t.performed_all(ops.take(k as int)),
        ),
    decreases k,
{
    if k == 0 {
        assert(ops.take(0) =~= Seq::empty());
        lemma_frames_keep_programming(traffic[0], t);
    } else {
        let m = (k - 1) as nat;
        let u = under_traffic(t, ops, traffic, m);
        writes_take_effect_under_traffic(t, ops, traffic, m);
        lemma_performed_take(t, ops, m as int);
        lemma_same_write(u, t.performed_all(ops.take(m as int)), ops[m as int]);
        lemma_frames_keep_programming(traffic[k as int], u.performed(ops[m as int]));
    }
}

/// Tables that agree in what the control plane writes route alike.
proof fn lemma_same_routing(a: TablesView, b: TablesView, active: u32, h: u32)
    requires
        same_programming(a, b),
    ensures
        a.lookup(h) == b.lookup(h),
        steady(b, active) ==> steady(a, active),
{
    if steady(b, active) {
        assert forall|i: int| 0 <= i < M implies in_buffer(
            active,
            #[trigger] a.route[active * M + i],
        ) by {
            assert(in_buffer(active, b.route[active * M + i]));
        }
        assert forall|id: u32| #[trigger] a.backends.contains_key(id) implies id < N * BUFFERS by {
            assert(b.backends.contains_key(id));
        }
    }
}

/// Law: traffic keeps flowing while a backend set is applied. Whatever comes in between
/// the writes, until the very last of them every slot keeps leading where it led.
pub proof fn traffic_flows_during_a_reload(
    t: TablesView,
    active: u32,
    backends: Seq<Backend>,
    table: Seq<u32>,
    traffic: Seq<Seq<(Seq<u8>, u64)>>,
    k: nat,
    h: u32,
)
    requires
        steady(t, active),
        table.len() == M,
        backends.len() <= N,
        k < apply_ops(active, backends, table).len(),
        h < M,
    ensures
        under_traffic(t, apply_ops(active, backends, table), traffic, k).lookup(h) == t.lookup(h),
        steady(under_traffic(t, apply_ops(active, backends, table), traffic, k), active),
{
    let ops = apply_ops(active, backends, table);
    writes_take_effect_under_traffic(t, ops, traffic, k);
    nothing_changes_before_the_flip(t, active, backends, table, k as int, h);
    lemma_same_routing(
        under_traffic(t, ops, traffic, k),
        t.performed_all(ops.take(k as int)),
        active,
        h,
    );
}

/// Law: whatever traffic came in meanwhile, the last write brings the whole of the new
/// backend set into effect, and what comes in after it follows the new table.
pub proof fn the_flip_takes_effect_under_traffic(
    t: TablesView,
    active: u32,
    backends: Seq<Backend>,
    table: Seq<u32>,
    traffic: Seq<Seq<(Seq<u8>, u64)>>,
    h: u32,
)
    requires
        steady(t, active),
        table_fits(table, backends),
        h < M,
    ensures
        ({
            let ops = apply_ops(active, backends, table);
            let after = under_traffic(t, ops, traffic, ops.len());
            &&& after.lookup(h) == table_node(table, backends, h as int)
            &&& steady(after, standby_of(active))
            &&& after.ports == t.ports
        }),
{
    let ops = apply_ops(active, backends, table);
    writes_take_effect_under_traffic(t, ops, traffic, ops.len());
    assert(ops.take(ops.len() as int) =~= ops);
    the_flip_installs_the_new_table(t, active, backends, table, h);
    lemma_same_routing(
        under_traffic(t, ops, traffic, ops.len()),
        t.performed_all(ops),
        standby_of(active),
        h,
    );
}

/// Law: freshly loaded tables are steady once the control plane has started, and
/// lead nowhere yet.
pub proof fn fresh_tables_are_steady(h: u32)
    requires
        h < M,
    ensures
        steady(TablesView::fresh().performed_all(startup_ops()), 0),
        TablesView::fresh().performed_all(startup_ops()).lookup(h) is None,
{
    let t = TablesView::fresh();
    let ops = startup_ops();
    assert(ops.take(0) =~= Seq::empty());
    lemma_performed_take(t, ops, 0);
    lemma_performed_take(t, ops, 1);
    assert(ops.take(2) =~= ops);
}

/// Law: packets do not disturb a steady state.
pub proof fn packets_keep_the_state_steady(f: Seq<u8>, t: TablesView, active: u32, now: u64)
    requires
        steady(t, active),
    ensures
        steady(outcome(f, t, now).tables, active),
        forall|h: u32| h < M ==> #[trigger] outcome(f, t, now).tables.lookup(h) == t.lookup(h),
{
    each_packet_is_counted_once(f, t, now);
}

/// Law: once the thresholds are written, the data plane screens by them.
pub proof fn protection_takes_effect(t: TablesView, p: ProtectionSettings)
    requires
        t.wf(),
    ensures
        limits_of(t.performed_all(protection_ops(p))) == p,
        t.performed_all(protection_ops(p)).wf(),
        forall|active: u32|
            steady(t, active) ==> #[trigger] steady(
                t.performed_all(protection_ops(p)),
                active,
            ),
{
    let ops = protection_ops(p);
    assert(ops.take(0) =~= Seq::empty());
    lemma_performed_take(t, ops, 0);
    lemma_performed_take(t, ops, 1);
    lemma_performed_take(t, ops, 2);
    lemma_performed_take(t, ops, 3);
    assert(ops.take(4) =~= ops);
}

/// Law: once it is written, the data plane drops unrouted packets exactly if it
/// was told to.
pub proof fn drop_unmatched_takes_effect(t: TablesView, drop: bool)
    requires
        t.wf(),
    ensures
        t.performed_all(drop_unmatched_ops(drop)).ctrl_value(CTRL_DROP_UNMATCHED) == (if drop {
            1u32
        } else {
            0u32
        }),
        forall|active: u32|
            steady(t, active) ==> #[trigger] steady(
                t.performed_all(drop_unmatched_ops(drop)),
                active,
            ),
{
    let ops = drop_unmatched_ops(drop);
    assert(ops.take(0) =~= Seq::empty());
    lemma_performed_take(t, ops, 0);
    assert(ops.take(1) =~= ops);
}

/// Every required one of the first `k` writes is accepted when its turn comes.
pub open spec fn all_accepted(t: TablesView, ops: Seq<MapOp>, k: int) -> bool {
    forall|i: int|
        0 <= i < k && (#[trigger] ops[i]).required() ==> t.performed_all(ops.take(i)).accepts(
            ops[i],
        )
}

proof fn lemma_to_set_push(s: Seq<u16>, k: int)
    requires
        0 < k <= s.len(),
    ensures
        s.take(k).to_set() == s.take(k - 1).to_set().insert(s[k - 1]),
{
    let all = s.take(k);
    let prev = s.take(k - 1);
    assert forall|p: u16| all.to_set().contains(p) implies prev.to_set().insert(
        s[k - 1],
    ).contains(p) by {
        let i = choose|i: int| 0 <= i < all.len() && all[i] == p;
        if i < k - 1 {
            assert(prev[i] == p);
        }
    }
    assert forall|p: u16| prev.to_set().insert(s[k - 1]).contains(p) implies all.to_set().contains(
        p,
    ) by {
        if p == s[k - 1] {
            assert(all[k - 1] == p);
        } else {
            let i = choose|i: int| 0 <= i < prev.len() && prev[i] == p;
            assert(all[i] == p);
        }
    }
    assert(all.to_set() =~= prev.to_set().insert(s[k - 1]));
}

/// The port table after the first `k` of a list of insertions that are accepted.
proof fn lemma_ports_inserted(t: TablesView, ops: Seq<MapOp>, added: Seq<u16>, k: int)
    requires
        0 <= k <= added.len() <= ops.len(),
        forall|i: int|
            0 <= i < added.len() ==> ops[i] == (MapOp::InsertPort { port: #[trigger] added[i] }),
        all_accepted(t, ops, k),
    ensures
        t.performed_all(ops.take(k)) == (TablesView {
            ports: t.ports.union(added.take(k).to_set()),
            ..t
        }),
    decreases k,
{
    let u = t.performed_all(ops.take(k));
    if k == 0 {
        assert(added.take(0).to_set() =~= Set::empty());
        assert(u.ports =~= t.ports.union(added.take(0).to_set()));
    } else {
        let port = added[k - 1];
        lemma_ports_inserted(t, ops, added, k - 1);
        lemma_performed_take(t, ops, k - 1);
        assert(ops[k - 1] == (MapOp::InsertPort { port }));
        assert(ops[k - 1].required());
        lemma_to_set_push(added, k);
        assert(u.ports =~= t.ports.union(added.take(k).to_set()));
    }
}

/// With room for all of them, the first `k` of a list of insertions are accepted.
proof fn lemma_insertions_fit(t: TablesView, ops: Seq<MapOp>, added: Seq<u16>, k: int)
    requires
        t.wf(),
        0 <= k <= added.len() <= ops.len(),
        forall|i: int|
            0 <= i < added.len() ==> ops[i] == (MapOp::InsertPort { port: #[trigger] added[i] }),
        t.ports.union(added.to_set()).len() <= MAX_PORTS,
    ensures
        all_accepted(t, ops, k),
    decreases k,
{
    if k > 0 {
        let port = added[k - 1];
        lemma_insertions_fit(t, ops, added, k - 1);
        lemma_ports_inserted(t, ops, added, k - 1);
        assert(ops[k - 1] == (MapOp::InsertPort { port }));
        let before = t.performed_all(ops.take(k - 1));
        let prev = added.take(k - 1);
        if !before.ports.contains(port) {
            let all = t.ports.union(added.to_set());
            assert(added.to_set().contains(port)) by {
                assert(added[k - 1] == port);
            }
            added.lemma_cardinality_of_set();
            assert(before.ports.insert(port).subset_of(all)) by {
                assert forall|p: u16| before.ports.insert(port).contains(p) implies all.contains(
                    p,
                ) by {
                    if p != port && !t.ports.contains(p) {
                        let i = choose|i: int| 0 <= i < prev.len() && prev[i] == p;
                        assert(added[i] == p);
                    }
                }
            }
            lemma_len_subset(before.ports.insert(port), all);
            lemma_len_subset(before.ports, all);
        }
        assert(before.accepts(ops[k - 1]));
    }
}

/// The port table after `k` removals that start at write `from`.
proof fn lemma_ports_removed(
    t: TablesView,
    ops: Seq<MapOp>,
    from: int,
    removed: Seq<u16>,
    k: int,
)
    requires
        0 <= from,
        from + removed.len() <= ops.len(),
        0 <= k <= removed.len(),
        forall|i: int|
            0 <= i < removed.len() ==> ops[from + i] == (MapOp::RemovePort {
                port: #[trigger] removed[i],
            }),
    ensures
        t.performed_all(ops.take(from + k)) == (TablesView {
            ports: t.performed_all(ops.take(from)).ports.difference(removed.take(k).to_set()),
            ..t.performed_all(ops.take(from))
        }),
    decreases k,
{
    let start = t.performed_all(ops.take(from));
    let u = t.performed_all(ops.take(from + k));
    if k == 0 {
        assert(removed.take(0).to_set() =~= Set::empty());
        assert(u.ports =~= start.ports.difference(removed.take(0).to_set()));
    } else {
        let port = removed[k - 1];
        lemma_ports_removed(t, ops, from, removed, k - 1);
        lemma_performed_take(t, ops, from + k - 1);
        assert(ops[from + (k - 1)] == (MapOp::RemovePort { port }));
        lemma_to_set_push(removed, k);
        assert(u.ports =~= start.ports.difference(removed.take(k).to_set()));
    }
}

proof fn lemma_outside_contains(ports: Seq<u16>, other: Seq<u16>)
    ensures
        forall|p: u16|
            #[trigger] outside(ports, other).contains(p) <==> ports.contains(p) && !other.contains(
                p,
            ),
{
    let keep = |p: u16| !other.contains(p);
    assert forall|p: u16|
        #[trigger] outside(ports, other).contains(p) <==> ports.contains(p) && !other.contains(
            p,
        ) by {
        lemma_filter_contains(ports, keep, p);
    }
}

/// Law: once its required writes are accepted, reconciling the ports leaves exactly
/// the new ports load-balanced, and nothing else changed.
pub proof fn ports_are_reconciled(t: TablesView, installed: Seq<u16>, ports: Seq<u16>)
    requires
        t.ports == installed.to_set(),
        all_accepted(t, port_ops(installed, ports), port_ops(installed, ports).len() as int),
    ensures
        t.performed_all(port_ops(installed, ports)) == (TablesView { ports: ports.to_set(), ..t }),
{
    let added = outside(ports, installed);
    let removed = outside(installed, ports);
    let ops = port_ops(installed, ports);
    lemma_outside_contains(ports, installed);
    lemma_outside_contains(installed, ports);
    lemma_ports_inserted(t, ops, added, added.len() as int);
    assert(added.take(added.len() as int) =~= added);
    lemma_ports_removed(t, ops, added.len() as int, removed, removed.len() as int);
    assert(removed.take(removed.len() as int) =~= removed);
    assert(ops.take((added.len() + removed.len()) as int) =~= ops);
    assert forall|p: u16| t.performed_all(ops).ports.contains(p) <==> ports.to_set().contains(p) by {
        assert(added.contains(p) <==> ports.contains(p) && !installed.contains(p));
        assert(removed.contains(p) <==> installed.contains(p) && !ports.contains(p));
    }
    assert(t.performed_all(ops).ports =~= ports.to_set());
}

/// Law: as long as the old and the new ports fit side by side, the writes that
/// reconcile them are accepted.
pub proof fn fitting_ports_are_accepted(t: TablesView, installed: Seq<u16>, ports: Seq<u16>)
    requires
        t.wf(),
        t.ports == installed.to_set(),
        installed.to_set().union(ports.to_set()).len() <= MAX_PORTS,
    ensures
        all_accepted(t, port_ops(installed, ports), port_ops(installed, ports).len() as int),
{
    let added = outside(ports, installed);
    let ops = port_ops(installed, ports);
    lemma_outside_contains(ports, installed);
    assert forall|p: u16| t.ports.union(added.to_set()).contains(p) <==> installed.to_set().union(
        ports.to_set(),
    ).contains(p) by {
        assert(added.contains(p) <==> ports.contains(p) && !installed.contains(p));
    }
    assert(t.ports.union(added.to_set()) =~= installed.to_set().union(ports.to_set()));
    lemma_insertions_fit(t, ops, added, added.len() as int);
}

/// Law: when a port update fails, the ports on record are those that are
/// load-balanced.
pub proof fn failed_port_updates_are_on_record(
    t: TablesView,
    installed: Seq<u16>,
    ports: Seq<u16>,
    made: int,
)
    requires
        t.ports == installed.to_set(),
        0 <= made < port_ops(installed, ports).len(),
        port_ops(installed, ports)[made].required(),
        all_accepted(t, port_ops(installed, ports), made),
    ensures
        t.performed_all(port_ops(installed, ports).take(made)) == (TablesView {
            ports: ports_on_record(installed, ports, made as nat).to_set(),
            ..t
        }),
{
    let added = outside(ports, installed);
    let ops = port_ops(installed, ports);
    assert(made < added.len());
    lemma_ports_inserted(t, ops, added, made);
    let now = added.take(made);
    let record = ports_on_record(installed, ports, made as nat);
    assert(record == installed + now);
    assert forall|p: u16| record.to_set().contains(p) <==> installed.to_set().union(
        now.to_set(),
    ).contains(p) by {
        if record.contains(p) {
            let i = choose|i: int| 0 <= i < record.len() && record[i] == p;
            if i < installed.len() {
                assert(installed[i] == p);
            } else {
                assert(now[i - installed.len()] == p);
            }
        }
        if installed.contains(p) {
            let i = choose|i: int| 0 <= i < installed.len() && installed[i] == p;
            assert(record[i] == p);
        }
        if now.contains(p) {
            let i = choose|i: int| 0 <= i < now.len() && now[i] == p;
            assert(record[installed.len() + i] == p);
        }
    }
    assert(record.to_set() =~= installed.to_set().union(now.to_set()));
}

/// Law: after a port update that failed, the next one that succeeds leaves exactly
/// the ports it asks for load-balanced.
pub proof fn failed_port_updates_are_made_up_for(
    t: TablesView,
    installed: Seq<u16>,
    ports: Seq<u16>,
    made: int,
    asked: Seq<u16>,
)
    requires
        t.ports == installed.to_set(),
        0 <= made < port_ops(installed, ports).len(),
        port_ops(installed, ports)[made].required(),
        all_accepted(t, port_ops(installed, ports), made),
        ({
            let ops = port_ops(ports_on_record(installed, ports, made as nat), asked);
            all_accepted(
                t.performed_all(port_ops(installed, ports).take(made)),
                ops,
                ops.len() as int,
            )
        }),
    ensures
        t.performed_all(port_ops(installed, ports).take(made)).performed_all(
            port_ops(ports_on_record(installed, ports, made as nat), asked),
        ) == (TablesView { ports: asked.to_set(), ..t }),
{
    failed_port_updates_are_on_record(t, installed, ports, made);
    ports_are_reconciled(
        t.performed_all(port_ops(installed, ports).take(made)),
        ports_on_record(installed, ports, made as nat),
        asked,
    );
}

/// Law: ports that have not changed need no writes.
pub proof fn unchanged_ports_need_no_writes(ports: Seq<u16>)
    ensures
        port_ops(ports, ports).len() == 0,
{
    let none = outside(ports, ports);
    lemma_outside_contains(ports, ports);
    if none.len() > 0 {
        assert(none.contains(none[0]));
    }
}

proof fn lemma_filter_contains(s: Seq<u16>, keep: spec_fn(u16) -> bool, p: u16)
    ensures
        s.filter(keep).contains(p) <==> s.contains(p) && keep(p),
    decreases s.len(),
{
    reveal(Seq::filter);
    if s.len() > 0 {
        let t = s.drop_last();
        lemma_filter_contains(t, keep, p);
        if s.contains(p) {
            let i = choose|i: int| 0 <= i < s.len() && s[i] == p;
            if i < t.len() {
                assert(t[i] == p);
            }
        }
        if t.contains(p) {
            let i = choose|i: int| 0 <= i < t.len() && t[i] == p;
            assert(s[i] == p);
        }
        let r = s.filter(keep);
        let q = t.filter(keep);
        if keep(s.last()) {
            assert(r == q.push(s.last()));
            assert(r[r.len() - 1] == s.last());
            assert(s[s.len() - 1] == s.last());
            if q.contains(p) {
                let i = choose|i: int| 0 <= i < q.len() && q[i] == p;
                assert(r[i] == p);
            }
            if r.contains(p) {
                let i = choose|i: int| 0 <= i < r.len() && r[i] == p;
                if i < q.len() {
                    assert(q[i] == p);
                }
            }
        }
    }
}

/// Law: every setting is written to its own place, as it stands, and nothing else is
/// touched: whether unrouted packets are dropped to control value 1, the thresholds to
/// control values 2 to 5. At startup buffer 0 is chosen and unrouted packets are passed.
pub proof fn settings_reach_their_places(t: TablesView, p: ProtectionSettings, drop: bool)
    requires
        t.ctrl.len() == 8,
    ensures
        t.performed_all(protection_ops(p)) == (TablesView {
            ctrl: t.ctrl.update(2, p.rate_max).update(3, p.window_ms).update(
                4,
                p.malformed_max,
            ).update(5, p.block_secs),
            ..t
        }),
        drop ==> t.performed_all(drop_unmatched_ops(drop)) == (TablesView {
            ctrl: t.ctrl.update(1, 1),
            ..t
        }),
        !drop ==> t.performed_all(drop_unmatched_ops(drop)) == (TablesView {
            ctrl: t.ctrl.update(1, 0),
            ..t
        }),
        t.performed_all(startup_ops()) == (TablesView {
            ctrl: t.ctrl.update(0, 0).update(1, 0),
            ..t
        }),
{
    let ops = protection_ops(p);
    assert(ops.take(0) =~= Seq::empty());
    lemma_performed_take(t, ops, 0);
    lemma_performed_take(t, ops, 1);
    lemma_performed_take(t, ops, 2);
    lemma_performed_take(t, ops, 3);
    assert(ops.take(4) =~= ops);
    let drops = drop_unmatched_ops(drop);
    assert(drops.take(0) =~= Seq::empty());
    lemma_performed_take(t, drops, 0);
    assert(drops.take(1) =~= drops);
    let first = startup_ops();
    assert(first.take(0) =~= Seq::empty());
    lemma_performed_take(t, first, 0);
    lemma_performed_take(t, first, 1);
    assert(first.take(2) =~= first);
}

/// Law: two series of writes, one after the other, do what each of them does in turn.
pub proof fn series_of_writes_follow_each_other(t: TablesView, a: Seq<MapOp>, b: Seq<MapOp>)
    ensures
        t.performed_all(a + b) == t.performed_all(a).performed_all(b),
    decreases b.len(),
{
    if b.len() == 0 {
        assert(a + b =~= a);
    } else {
        series_of_writes_follow_each_other(t, a, b.drop_last());
        assert((a + b).drop_last() =~= a + b.drop_last());
    }
}

/// Law: once a backend set is applied, slot `h` leads to the address, port and MAC of the
/// backend that the table names for it, a port of zero standing for none, and nowhere if
/// the table leaves it empty.
pub proof fn applied_backends_are_looked_up(
    t: TablesView,
    active: u32,
    backends: Seq<Backend>,
    table: Seq<u32>,
    h: u32,
)
    requires
        steady(t, active),
        table_fits(table, backends),
        h < 65537,
    ensures
        ({
            let found = t.performed_all(apply_ops(active, backends, table)).lookup(h);
            if table[h as int] == 0xFFFF_FFFF {
                found is None
            } else {
                let b = backends[table[h as int] as int];
                &&& found is Some
                &&& found->0.daddr == b.ip.bits
                &&& found->0.dmac == b.mac
                &&& b.port is Some ==> found->0.dport == b.port->0
                &&& b.port is None ==> found->0.dport == 0
            }
        }),
{
    the_flip_installs_the_new_table(t, active, backends, table, h);
}

} // verus!
