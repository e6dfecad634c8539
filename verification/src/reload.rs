//! One reload: re-discover and health-check the backends, rebuild the table,
//! flip the buffer, and refresh the metrics. Everything outside (table writes,
//! container lists, name resolution, probes) is an action to be carried out, and
//! comes back as an event.

use vstd::prelude::*;
use crate::backend::{
    port_or_zero, rank_is_lexicographic, sorting_is_stable, stable_sorted, views, Backend, BackendView,
};
use crate::common::{M, N, Node};
use crate::config::{Config, Strategy};
use crate::dataplane::{
    apply_ops, drop_unmatched_ops, node_of, outside, port_ops, ports_on_record, protection_ops, standby_of, ApplyError,
    DataPlane, Stats,
};
use crate::discovery::{
    discover, discovery_request, expected_backends, opt_view, request_is, Container, DiscoverError, DiscoveryRequest,
    IpAddr,
};
use crate::handover::{
    series_of_writes_follow_each_other, settings_reach_their_places, steady, table_fits, the_flip_installs_the_new_table,
};
use crate::health::{
    answered, choose_probe_port, did_answer, exactly_the_healthy_backends_remain, filter_healthy, keys_of,
    spec_probe_port,
};
use crate::maglev::{
    backends_claim_slots_in_turn, build_table, every_slot_is_owned, is_preferred, key_params_are_valid, keys_params,
    maglev_table, valid_params,
};
use crate::metrics::MetricsState;
use crate::tables::{MapOp, TablesView};

verus! {

/// What a reload is waiting for.
#[derive(Debug, Clone)]
pub enum ReloadState {
    /// The listen ports to be written.
    Ports,
    /// The settings to be written.
    Settings,
    /// The replies of discovery.
    Discovering,
    /// The answers of the discovered backends to their probes.
    Probing { backends: Vec<Backend> },
    /// The new table to be written.
    Installing { total: usize, healthy: usize },
    /// The data-plane counters.
    Counting { total: usize, healthy: usize },
    /// Nothing more.
    Done,
    /// Nothing more; the reload was given up.
    Failed,
}

/// A backend to probe, and the port to probe it on.
#[derive(Debug, Clone, Copy)]
pub struct ProbeTarget {
    pub backend: Backend,
    pub port: u16,
}

/// Why a reload was given up.
#[derive(Debug, Clone, Copy, PartialEq, Eq, Structural)]
pub enum ReloadError {
    /// An action failed, or its reply is not one to that action.
    ActionFailed,
    Discover { error: DiscoverError },
    Apply { error: ApplyError },
}

/// What to do next.
#[derive(Debug, Clone)]
pub enum ReloadAction {
    /// Make the writes in order, up to the first required one that fails.
    Write { ops: Vec<MapOp> },
    /// Ask what discovery needs.
    Discover { request: DiscoveryRequest },
    /// Probe every target.
    Probe { targets: Vec<ProbeTarget> },
    /// Read the data-plane counters.
    ReadCounters,
    Finish,
    Abort { error: ReloadError },
}

/// What came of an action.
#[derive(Debug, Clone)]
pub enum ReloadEvent {
    /// Every required write was made.
    Written,
    /// A required write failed; the `made` writes before it were made.
    WriteFailed { made: usize },
    /// The action, which was no write, failed.
    ActionFailed,
    /// The replies to a discovery request; `arp` is the neighbour table.
    Discovered { containers: Vec<Container>, addrs: Vec<IpAddr>, arp: Option<String> },
    /// Whether the targets answered, in the order of the targets.
    Probed { answers: Vec<bool> },
    /// The counters.
    Counted { stats: Stats },
}

/// The probes of `backends`.
pub open spec fn probe_targets(cfg: Config, backends: Seq<Backend>) -> Seq<ProbeTarget> {
    backends.map_values(
        |b: Backend|
            ProbeTarget {
                backend: b,
                port: spec_probe_port(
                    b.port,
                    cfg.spec_health_probe_port(),
                    cfg.spec_listen_ports()[0],
                ),
            },
    )
}

/// The data plane's entry `node` stands for backend `b`.
pub open spec fn leads_to(node: Node, b: BackendView) -> bool {
    &&& node.daddr == b.ip.bits
    &&& node.dport == port_or_zero(b.port)
    &&& node.dmac@ == b.mac
}

/// The Maglev table of a backend list.
pub open spec fn table_of(backends: Seq<BackendView>) -> Seq<u32> {
    maglev_table(keys_params(keys_of(backends)))
}

/// `state` and `action` start installing a list of backends of which `total` were
/// discovered, or give up because they do not fit into a buffer.
pub open spec fn installs(
    list: Seq<BackendView>,
    total: int,
    active: u32,
    state: ReloadState,
    action: ReloadAction,
) -> bool {
    if list.len() > N {
        &&& state == ReloadState::Failed
        &&& action matches ReloadAction::Abort { error } && error == (ReloadError::Apply {
            error: ApplyError::TooManyBackends { count: list.len() as usize },
        })
    } else {
        &&& state matches ReloadState::Installing { total: t, healthy } && t == total && healthy
            == list.len()
        &&& action matches ReloadAction::Write { ops } && exists|backends: Seq<Backend>|
            views(backends) == list && ops@ == #[trigger] apply_ops(
                active,
                backends,
                table_of(list),
            )
    }
}

/// The reload was given up for `error`.
pub open spec fn aborts(state: ReloadState, action: ReloadAction, error: ReloadError) -> bool {
    &&& state == ReloadState::Failed
    &&& action matches ReloadAction::Abort { error: e } && e == error
}

/// What a list of discovered backends leads to: probes if health checking is on,
/// else installing them as they are.
pub open spec fn proceeds(
    cfg: Config,
    list: Seq<BackendView>,
    active: u32,
    state: ReloadState,
    action: ReloadAction,
) -> bool {
    if cfg.spec_health_check_enabled() {
        &&& state matches ReloadState::Probing { backends } && views(backends@) == list && (
        action matches ReloadAction::Probe { targets } && targets@ == probe_targets(
            cfg,
            backends@,
        ))
    } else {
        installs(list, list.len() as int, active, state, action)
    }
}

/// How a reload goes on from `before` at `event`.
pub open spec fn stepped(
    cfg: Config,
    active: u32,
    before: ReloadState,
    event: ReloadEvent,
    state: ReloadState,
    action: ReloadAction,
) -> bool {
    match (before, event) {
        (ReloadState::Ports, ReloadEvent::Written) => {
            &&& state == ReloadState::Settings
            &&& action matches ReloadAction::Write { ops } && ops@ == drop_unmatched_ops(
                cfg.discovery.drop_unmatched,
            ) + protection_ops(cfg.spec_protection())
        },
        (ReloadState::Settings, ReloadEvent::Written) => {
            ||| state == ReloadState::Discovering && (action matches ReloadAction::Discover {
                request,
            } && request_is(cfg.discovery, Ok(request)))
            ||| exists|error: DiscoverError| #[trigger]
                request_is(cfg.discovery, Err(error)) && aborts(
                    state,
                    action,
                    ReloadError::Discover { error },
                )
        },
        (ReloadState::Discovering, ReloadEvent::Discovered { containers, addrs, arp }) => {
            match expected_backends(cfg.discovery, containers@, addrs@, opt_view(arp)) {
                Ok(list) => proceeds(cfg, list, active, state, action),
                Err(error) => aborts(state, action, ReloadError::Discover { error }),
            }
        },
        (ReloadState::Probing { backends }, ReloadEvent::Probed { answers }) => installs(
            stable_sorted(answered(backends@, answers@), true),
            backends@.len() as int,
            active,
            state,
            action,
        ),
        (ReloadState::Installing { total, healthy }, ReloadEvent::Written) => {
            &&& state == (ReloadState::Counting { total, healthy })
            &&& action is ReadCounters
        },
        (ReloadState::Counting { .. }, ReloadEvent::Counted { .. }) => {
            &&& state == ReloadState::Done
            &&& action is Finish
        },
        _ => aborts(state, action, ReloadError::ActionFailed),
    }
}

/// What a reload remembers of the ports after `event`.
pub open spec fn ports_after(
    cfg: Config,
    before: ReloadState,
    event: ReloadEvent,
    installed: Seq<u16>,
) -> Seq<u16> {
    match (before, event) {
        (ReloadState::Ports, ReloadEvent::Written) => cfg.spec_listen_ports(),
        (ReloadState::Ports, ReloadEvent::WriteFailed { made }) => ports_on_record(
            installed,
            cfg.spec_listen_ports(),
            made as nat,
        ),
        _ => installed,
    }
}

/// The buffer in use after `event`.
pub open spec fn active_after(before: ReloadState, event: ReloadEvent, active: u32) -> u32 {
    if before is Installing && event is Written {
        standby_of(active)
    } else {
        active
    }
}

/// The metrics after `event`.
pub open spec fn metrics_after(
    before: ReloadState,
    event: ReloadEvent,
    m: MetricsState,
) -> MetricsState {
    match (before, event) {
        (
            ReloadState::Counting { total, healthy },
            ReloadEvent::Counted { stats },
        ) => MetricsState::refreshed(stats, total as u64, healthy as u64),
        _ => m,
    }
}

impl ReloadState {
    /// Begin a reload: bring the port table up to date first.
    pub fn start(cfg: &Config, dp: &DataPlane) -> (r: (ReloadState, ReloadAction))
        ensures
            r.0 == ReloadState::Ports,
            r.1 matches ReloadAction::Write { ops } && ops@ == port_ops(
                dp.installed_ports@,
                cfg.spec_listen_ports(),
            ),
    {
        let ports = cfg.listen_ports();
        (ReloadState::Ports, ReloadAction::Write { ops: dp.set_ports(ports.as_slice()) })
    }

    fn abort(&mut self, error: ReloadError) -> (action: ReloadAction)
        ensures
            aborts(*final(self), action, error),
    {
        *self = ReloadState::Failed;
        ReloadAction::Abort { error }
    }

    fn install(&mut self, backends: &Vec<Backend>, total: usize, dp: &DataPlane) -> (action:
        ReloadAction)
        requires
            dp.wf(),
        ensures
            installs(views(backends@), total as int, dp.active, *final(self), action),
    {
        let mut keys: Vec<String> = Vec::new();
        let ghost list = views(backends@);
        let mut i: usize = 0;
        while i < backends.len()
            invariant
                i <= backends@.len(),
                list == views(backends@),
                keys@.len() == i,
                forall|k: int| 0 <= k < i ==> #[trigger] keys@[k]@ == list[k].key(),
            decreases backends@.len() - i,
        {
            keys.push(backends[i].key());
            i = i + 1;
        }
        assert(keys@.map_values(|key: String| key@) =~= keys_of(list));
        let table = build_table(keys.as_slice());
        match dp.apply(backends.as_slice(), table.as_slice()) {
            Ok(ops) => {
                *self = ReloadState::Installing { total, healthy: backends.len() };
                assert(ops@ == apply_ops(dp.active, backends@, table_of(list)));
                ReloadAction::Write { ops }
            },
            Err(error) => self.abort(ReloadError::Apply { error }),
        }
    }

    /// Take in what came of the last action and say what to do next.
    pub fn step(
        &mut self,
        cfg: &Config,
        dp: &mut DataPlane,
        metrics: &mut MetricsState,
        event: &ReloadEvent,
    ) -> (action: ReloadAction)
        requires
            old(dp).wf(),
        ensures
            final(dp).wf(),
            stepped(*cfg, old(dp).active, *old(self), *event, *final(self), action),
            final(dp).installed_ports@ == ports_after(
                *cfg,
                *old(self),
                *event,
                old(dp).installed_ports@,
            ),
            final(dp).active == active_after(*old(self), *event, old(dp).active),
            *final(metrics) == metrics_after(*old(self), *event, *old(metrics)),
    {
        let mut before = ReloadState::Failed;
        std::mem::swap(self, &mut before);
        match (before, event) {
            (ReloadState::Ports, ReloadEvent::Written) => {
                let ports = cfg.listen_ports();
                dp.ports_written(ports.as_slice());
                *self = ReloadState::Settings;
                let mut ops = dp.set_drop_unmatched(cfg.discovery.drop_unmatched);
                let mut rest = dp.set_protection(cfg.protection_settings());
                ops.append(&mut rest);
                ReloadAction::Write { ops }
            },
            (ReloadState::Ports, ReloadEvent::WriteFailed { made }) => {
                let ports = cfg.listen_ports();
                dp.ports_partly_written(ports.as_slice(), *made);
                self.abort(ReloadError::ActionFailed)
            },
            (ReloadState::Settings, ReloadEvent::Written) => {
                match discovery_request(cfg) {
                    Ok(request) => {
                        *self = ReloadState::Discovering;
                        ReloadAction::Discover { request }
                    },
                    Err(error) => self.abort(ReloadError::Discover { error }),
                }
            },
            (ReloadState::Discovering, ReloadEvent::Discovered { containers, addrs, arp }) => {
                let table: Option<&str> = match arp {
                    Some(text) => Some(text.as_str()),
                    None => None,
                };
                match discover(cfg, containers.as_slice(), addrs.as_slice(), table) {
                    Ok(backends) => {
                        assert(views(backends@).len() == backends@.len());
                        if cfg.health_check_enabled() {
                            let targets = plan_probes(cfg, &backends);
                            *self = ReloadState::Probing { backends };
                            ReloadAction::Probe { targets }
                        } else {
                            self.install(&backends, backends.len(), dp)
                        }
                    },
                    Err(error) => self.abort(ReloadError::Discover { error }),
                }
            },
            (ReloadState::Probing { backends }, ReloadEvent::Probed { answers }) => {
                let healthy = filter_healthy(backends.as_slice(), answers.as_slice());
                self.install(&healthy, backends.len(), dp)
            },
            (ReloadState::Installing { total, healthy }, ReloadEvent::Written) => {
                dp.flipped();
                *self = ReloadState::Counting { total, healthy };
                ReloadAction::ReadCounters
            },
            (ReloadState::Counting { total, healthy }, ReloadEvent::Counted { stats }) => {
                metrics.refresh(*stats, total as u64, healthy as u64);
                *self = ReloadState::Done;
                ReloadAction::Finish
            },
            _ => self.abort(ReloadError::ActionFailed),
        }
    }
}

fn plan_probes(cfg: &Config, backends: &Vec<Backend>) -> (targets: Vec<ProbeTarget>)
    ensures
        targets@ == probe_targets(*cfg, backends@),
{
    let ports = cfg.listen_ports();
    let default_port: u16 = ports[0];
    let probe_port: Option<u16> = cfg.health_probe_port();
    let mut targets: Vec<ProbeTarget> = Vec::new();
    let mut i: usize = 0;
    while i < backends.len()
        invariant
            i <= backends@.len(),
            default_port == cfg.spec_listen_ports()[0],
            probe_port == cfg.spec_health_probe_port(),
            targets@.len() == i,
            forall|k: int|
                0 <= k < i ==> #[trigger] targets@[k] == probe_targets(*cfg, backends@)[k],
        decreases backends@.len() - i,
    {
        let backend = backends[i];
        let port: u16 = choose_probe_port(backend.port, probe_port, default_port);
        targets.push(ProbeTarget { backend, port });
        i = i + 1;
    }
    assert(targets@ =~= probe_targets(*cfg, backends@));
    targets
}

/// Law: the table of a backend list that fits into a buffer can be installed.
pub proof fn tables_of_backends_fit(backends: Seq<Backend>)
    requires
        backends.len() <= N,
    ensures
        table_fits(table_of(views(backends)), backends),
        forall|h: int|
            0 <= h < M ==> (#[trigger] table_of(views(backends))[h] == u32::MAX <==> backends.len()
                == 0),
{
    let list = views(backends);
    let params = keys_params(keys_of(list));
    assert(params.len() == backends.len());
    assert forall|j: int| 0 <= j < params.len() implies valid_params(#[trigger] params[j]) by {
        key_params_are_valid(keys_of(list)[j]);
    }
    if backends.len() > 0 {
        assert forall|h: int| 0 <= h < M implies #[trigger] table_of(list)[h] < backends.len() by {
            every_slot_is_owned(params, h);
        }
        every_slot_is_owned(params, 0);
    }
}

/// Law: once the writes of a reload are made, every flow that reaches the table
/// goes to one of the backends that were installed, and with at least one backend
/// no flow is left without.
pub proof fn installed_backends_take_the_traffic(
    t: TablesView,
    active: u32,
    backends: Seq<Backend>,
    h: u32,
)
    requires
        steady(t, active),
        backends.len() <= N,
        h < M,
    ensures
        ({
            let after = t.performed_all(apply_ops(active, backends, table_of(views(backends))));
            &&& steady(after, standby_of(active))
            &&& after.lookup(h) is None <==> backends.len() == 0
            &&& backends.len() > 0 ==> after.lookup(h) == Some(
                node_of(backends[table_of(views(backends))[h as int] as int]),
            )
        }),
{
    tables_of_backends_fit(backends);
    the_flip_installs_the_new_table(t, active, backends, table_of(views(backends)), h);
    assert(table_of(views(backends))[h as int] == u32::MAX <==> backends.len() == 0);
}

/// Law: only discovered backends that answered their probe get traffic, and as soon
/// as one did, all traffic that reaches the table goes to such a backend.
pub proof fn only_healthy_backends_get_traffic(
    t: TablesView,
    active: u32,
    found: Seq<Backend>,
    answers: Seq<bool>,
    backends: Seq<Backend>,
    h: u32,
)
    requires
        steady(t, active),
        views(backends) == stable_sorted(answered(found, answers), true),
        backends.len() <= N,
        h < M,
    ensures
        ({
            let after = t.performed_all(apply_ops(active, backends, table_of(views(backends))));
            &&& after.lookup(h) is Some <==> exists|i: int|
                0 <= i < found.len() && #[trigger] did_answer(answers, i)
            &&& after.lookup(h) is Some ==> exists|i: int|
                0 <= i < found.len() && #[trigger] did_answer(answers, i) && leads_to(
                    after.lookup(h)->0,
                    found[i]@,
                )
        }),
{
    let list = views(backends);
    let after = t.performed_all(apply_ops(active, backends, table_of(list)));
    installed_backends_take_the_traffic(t, active, backends, h);
    if backends.len() > 0 {
        let j = table_of(list)[h as int] as int;
        tables_of_backends_fit(backends);
        assert(table_of(list)[h as int] != u32::MAX);
        let b = list[j];
        assert(list.contains(b));
        exactly_the_healthy_backends_remain(found, answers, b);
        let i = choose|i: int|
            0 <= i < found.len() && #[trigger] did_answer(answers, i) && found[i]@ == b;
        assert(did_answer(answers, i) && leads_to(after.lookup(h)->0, found[i]@));
    }
    if exists|i: int| 0 <= i < found.len() && #[trigger] did_answer(answers, i) {
        let i = choose|i: int| 0 <= i < found.len() && #[trigger] did_answer(answers, i);
        exactly_the_healthy_backends_remain(found, answers, found[i]@);
        assert(list.contains(found[i]@));
    }
}

/// Law: whatever is answered to the probes, every backend that is then installed
/// was discovered.
pub proof fn only_discovered_backends_are_installed(
    cfg: Config,
    list: Seq<BackendView>,
    active: u32,
    probing: ReloadState,
    probe: ReloadAction,
    answers: Vec<bool>,
    state: ReloadState,
    action: ReloadAction,
) -> (installed: Seq<Backend>)
    requires
        cfg.spec_health_check_enabled(),
        proceeds(cfg, list, active, probing, probe),
        stepped(cfg, active, probing, ReloadEvent::Probed { answers }, state, action),
        action is Write,
    ensures
        action->ops@ == apply_ops(active, installed, table_of(views(installed))),
        forall|b: BackendView| #[trigger] views(installed).contains(b) ==> list.contains(b),
{
    let found = probing->backends@;
    let healthy = stable_sorted(answered(found, answers@), true);
    let installed = choose|backends: Seq<Backend>|
        views(backends) == healthy && action->ops@ == #[trigger] apply_ops(
            active,
            backends,
            table_of(healthy),
        );
    assert forall|b: BackendView| #[trigger] views(installed).contains(b) implies list.contains(
        b,
    ) by {
        exactly_the_healthy_backends_remain(found, answers@, b);
        let i = choose|i: int|
            0 <= i < found.len() && #[trigger] did_answer(answers@, i) && found[i]@ == b;
        assert(views(found)[i] == b);
    }
    installed
}

/// Law: a change of MAC addresses alone, such as a refreshed neighbour table,
/// leaves the Maglev table as it was.
pub proof fn mac_changes_keep_the_table(a: Seq<BackendView>, b: Seq<BackendView>)
    requires
        a.len() == b.len(),
        forall|i: int|
            0 <= i < a.len() ==> (#[trigger] a[i]).ip == b[i].ip && a[i].port == b[i].port,
    ensures
        table_of(a) == table_of(b),
{
    assert forall|i: int| 0 <= i < a.len() implies #[trigger] keys_of(a)[i] == keys_of(b)[i] by {
        assert(a[i].ip == b[i].ip && a[i].port == b[i].port);
    }
    assert(keys_of(a) =~= keys_of(b));
}

/// Law: an action that fails leaves the buffer in use and the metrics as they were,
/// and the ports on record too unless ports were written.
pub proof fn failed_actions_change_nothing(
    cfg: Config,
    before: ReloadState,
    installed: Seq<u16>,
    active: u32,
    m: MetricsState,
    made: usize,
)
    ensures
        ports_after(cfg, before, ReloadEvent::ActionFailed, installed) == installed,
        active_after(before, ReloadEvent::ActionFailed, active) == active,
        metrics_after(before, ReloadEvent::ActionFailed, m) == m,
        !(before is Ports) || made == 0 ==> ports_after(
            cfg,
            before,
            ReloadEvent::WriteFailed { made },
            installed,
        ) == installed,
        active_after(before, ReloadEvent::WriteFailed { made }, active) == active,
        metrics_after(before, ReloadEvent::WriteFailed { made }, m) == m,
{
    let added = outside(cfg.spec_listen_ports(), installed);
    assert(installed + added.take(0) =~= installed);
    if added.len() == 0 {
        assert(installed + added =~= installed);
    }
}

/// Law: when the ports are written, the settings come next: once these are written,
/// control value 1 says whether unrouted packets are dropped, and control values 2 to 5
/// hold the configured thresholds.
pub proof fn settings_follow_the_ports(
    cfg: Config,
    active: u32,
    state: ReloadState,
    action: ReloadAction,
    t: TablesView,
)
    requires
        stepped(cfg, active, ReloadState::Ports, ReloadEvent::Written, state, action),
        t.ctrl.len() == 8,
    ensures
        state == ReloadState::Settings,
        action is Write,
        ({
            let after = t.performed_all(action->ops@);
            let p = cfg.spec_protection();
            &&& after == (TablesView { ctrl: after.ctrl, ..t })
            &&& after.ctrl.len() == 8
            &&& after.ctrl[0] == t.ctrl[0]
            &&& cfg.discovery.drop_unmatched ==> after.ctrl[1] == 1
            &&& !cfg.discovery.drop_unmatched ==> after.ctrl[1] == 0
            &&& after.ctrl[2] == p.rate_max
            &&& after.ctrl[3] == p.window_ms
            &&& after.ctrl[4] == p.malformed_max
            &&& after.ctrl[5] == p.block_secs
        }),
{
    let p = cfg.spec_protection();
    let drop = cfg.discovery.drop_unmatched;
    series_of_writes_follow_each_other(t, drop_unmatched_ops(drop), protection_ops(p));
    settings_reach_their_places(t, p, drop);
    settings_reach_their_places(t.performed_all(drop_unmatched_ops(drop)), p, drop);
}

/// Law: the configured ports are on record once they are written, all of them, and no
/// other step changes what is on record but a failed write of ports.
pub proof fn written_ports_are_on_record(
    cfg: Config,
    before: ReloadState,
    event: ReloadEvent,
    installed: Seq<u16>,
)
    ensures
        before is Ports && event is Written ==> ports_after(cfg, before, event, installed)
            == cfg.spec_listen_ports(),
        !(before is Ports) ==> ports_after(cfg, before, event, installed) == installed,
        !(event is Written) && !(event is WriteFailed) ==> ports_after(
            cfg,
            before,
            event,
            installed,
        ) == installed,
{
}

/// Law: the buffers change places when the new table is written, and only then; the
/// metrics change when the counters come in, and only then.
pub proof fn only_finished_work_counts(
    before: ReloadState,
    event: ReloadEvent,
    active: u32,
    m: MetricsState,
)
    ensures
        before is Installing && event is Written && active == 0 ==> active_after(
            before,
            event,
            active,
        ) == 1,
        before is Installing && event is Written && active == 1 ==> active_after(
            before,
            event,
            active,
        ) == 0,
        !(before is Installing && event is Written) ==> active_after(before, event, active)
            == active,
        before is Counting && event is Counted ==> {
            let after = metrics_after(before, event, m);
            let s = event->stats;
            &&& after.routed == s.routed
            &&& after.dropped_validation == s.dropped_validation
            &&& after.dropped_blocked == s.dropped_blocked
            &&& after.dropped_rate == s.dropped_rate
            &&& after.dropped_nobackend == s.dropped_nobackend
            &&& after.backends_total == before->Counting_total as u64
            &&& after.backends_healthy == before->Counting_healthy as u64
            &&& after.ready <==> before->Counting_healthy as u64 > 0
        },
        !(before is Counting && event is Counted) ==> metrics_after(before, event, m) == m,
{
}

/// Law: what discovery found is probed, every backend in its place, on the configured
/// probe port, else on its own port, else on the first of the configured ports. Without
/// health checks it is installed as it is, and a discovery that failed ends the reload.
pub proof fn discovered_backends_are_probed(
    cfg: Config,
    active: u32,
    containers: Vec<Container>,
    addrs: Vec<IpAddr>,
    arp: Option<String>,
    state: ReloadState,
    action: ReloadAction,
)
    requires
        stepped(
            cfg,
            active,
            ReloadState::Discovering,
            ReloadEvent::Discovered { containers, addrs, arp },
            state,
            action,
        ),
    ensures
        ({
            let found = expected_backends(cfg.discovery, containers@, addrs@, opt_view(arp));
            let probing = cfg.health_check is None || cfg.health_check->0.enabled;
            let fixed = if cfg.health_check is Some {
                cfg.health_check->0.port
            } else {
                None
            };
            &&& found matches Err(error) ==> state == ReloadState::Failed && (
            action matches ReloadAction::Abort { error: e } && e == (ReloadError::Discover {
                error,
            }))
            &&& found matches Ok(list) ==> probing ==> {
                &&& state is Probing
                &&& views(state->backends@) == list
                &&& action is Probe
                &&& action->targets@.len() == list.len()
                &&& forall|i: int|
                    0 <= i < list.len() ==> {
                        let target = #[trigger] action->targets@[i];
                        &&& target.backend@ == list[i]
                        &&& fixed is Some ==> target.port == fixed->0
                        &&& fixed is None && list[i].port is Some ==> target.port
                            == list[i].port->0
                        &&& fixed is None && list[i].port is None ==> target.port
                            == cfg.spec_listen_ports()[0]
                    }
            }
            &&& found matches Ok(list) ==> !probing ==> installs(
                list,
                list.len() as int,
                active,
                state,
                action,
            )
        }),
{
    if let Ok(list) = expected_backends(cfg.discovery, containers@, addrs@, opt_view(arp)) {
        if cfg.spec_health_check_enabled() {
            let backends = state->backends@;
            assert(views(backends) == list);
            assert forall|i: int| 0 <= i < list.len() implies {
                let target = #[trigger] action->targets@[i];
                target.backend@ == list[i] && target.port == spec_probe_port(
                    list[i].port,
                    cfg.spec_health_probe_port(),
                    cfg.spec_listen_ports()[0],
                )
            } by {
                assert(views(backends)[i] == backends[i]@);
            }
        }
    }
}

/// Law: up to 650 backends are installed, with the numbers of discovered and of installed
/// ones noted; more are refused with their number.
pub proof fn backends_that_fit_are_installed(
    list: Seq<BackendView>,
    total: int,
    active: u32,
    state: ReloadState,
    action: ReloadAction,
) -> (installed: Seq<Backend>)
    requires
        installs(list, total, active, state, action),
    ensures
        list.len() <= 650 ==> {
            &&& state matches ReloadState::Installing { total: t, healthy } && t == total
                && healthy == list.len()
            &&& action is Write
            &&& views(installed) == list
            &&& action->ops@ == apply_ops(active, installed, table_of(list))
        },
        650 < list.len() <= usize::MAX ==> {
            &&& state == ReloadState::Failed
            &&& action matches ReloadAction::Abort { error } && error == (ReloadError::Apply {
                error: ApplyError::TooManyBackends { count: list.len() as usize },
            })
        },
{
    if list.len() <= 650 {
        choose|backends: Seq<Backend>|
            views(backends) == list && action->ops@ == #[trigger] apply_ops(
                active,
                backends,
                table_of(list),
            )
    } else {
        Seq::empty()
    }
}

/// Law: once the probes are answered, exactly the backends that answered are installed, in
/// the order of address and port, with the number of probed ones as the total.
pub proof fn answering_backends_are_installed(
    cfg: Config,
    active: u32,
    backends: Vec<Backend>,
    answers: Vec<bool>,
    state: ReloadState,
    action: ReloadAction,
)
    requires
        stepped(
            cfg,
            active,
            ReloadState::Probing { backends },
            ReloadEvent::Probed { answers },
            state,
            action,
        ),
    ensures
        ({
            let list = stable_sorted(answered(backends@, answers@), true);
            &&& installs(list, backends@.len() as int, active, state, action)
            &&& forall|b: BackendView| #[trigger]
                list.contains(b) <==> exists|i: int|
                    0 <= i < backends@.len() && i < answers@.len() && answers@[i]
                        && #[trigger] backends@[i]@ == b
            &&& forall|i: int, j: int|
                0 <= i < j < list.len() ==> {
                    let a = #[trigger] list[i];
                    let b = #[trigger] list[j];
                    a.ip.bits < b.ip.bits || a.ip == b.ip && (a.port is None || b.port is Some
                        && a.port->0 <= b.port->0)
                }
        }),
{
    let found = answered(backends@, answers@);
    let list = stable_sorted(found, true);
    assert forall|b: BackendView| #[trigger] list.contains(b) <==> exists|i: int|
        0 <= i < backends@.len() && i < answers@.len() && answers@[i] && #[trigger] backends@[i]@
            == b by {
        exactly_the_healthy_backends_remain(backends@, answers@, b);
        if list.contains(b) {
            let i = choose|i: int|
                0 <= i < backends@.len() && #[trigger] did_answer(answers@, i) && backends@[i]@
                    == b;
            assert(backends@[i]@ == b);
        }
        if exists|i: int|
            0 <= i < backends@.len() && i < answers@.len() && answers@[i]
                && #[trigger] backends@[i]@ == b {
            let i = choose|i: int|
                0 <= i < backends@.len() && i < answers@.len() && answers@[i]
                    && #[trigger] backends@[i]@ == b;
            assert(did_answer(answers@, i) && backends@[i]@ == b);
        }
    }
    sorting_is_stable(found, true);
    assert forall|i: int, j: int| 0 <= i < j < list.len() implies {
        let a = #[trigger] list[i];
        let b = #[trigger] list[j];
        a.ip.bits < b.ip.bits || a.ip == b.ip && (a.port is None || b.port is Some && a.port->0
            <= b.port->0)
    } by {
        assert(list[i].rank(true) <= list[j].rank(true));
        rank_is_lexicographic(list[j], list[i]);
    }
}

/// Law: the last steps of a reload, and what ends it. The counters are read once the table
/// is written, and the reload is over once they came in. Whatever does not belong to the
/// step that a reload is at makes it give up, and so does a failed action at any step.
pub proof fn reloads_end(
    cfg: Config,
    active: u32,
    before: ReloadState,
    event: ReloadEvent,
    state: ReloadState,
    action: ReloadAction,
)
    requires
        stepped(cfg, active, before, event, state, action),
    ensures
        before is Installing && event is Written ==> {
            &&& state is Counting
            &&& state->Counting_total == before->Installing_total
            &&& state->Counting_healthy == before->Installing_healthy
            &&& action is ReadCounters
        },
        before is Counting && event is Counted ==> state == ReloadState::Done && action is Finish,
        event is ActionFailed || event is WriteFailed || before is Done || before is Failed || (
        event is Written && !(before is Ports || before is Settings || before is Installing)) || (
        event is Discovered && !(before is Discovering)) || (event is Probed && !(
        before is Probing)) || (event is Counted && !(before is Counting)) ==> {
            &&& state == ReloadState::Failed
            &&& action matches ReloadAction::Abort { error: ReloadError::ActionFailed }
        },
{
}

/// Law: when the settings are written, discovery is asked for what the configuration says,
/// or the reload gives up for what the configuration lacks.
pub proof fn discovery_follows_the_settings(
    cfg: Config,
    active: u32,
    state: ReloadState,
    action: ReloadAction,
)
    requires
        stepped(cfg, active, ReloadState::Settings, ReloadEvent::Written, state, action),
    ensures
        ({
            let d = cfg.discovery;
            let lacking = {
                ||| d.strategy == Strategy::Docker && d.network is None
                    && d.target_service_name is None
                ||| d.strategy == Strategy::Dns && d.target_service_name is None
            };
            &&& lacking ==> state == ReloadState::Failed && action is Abort
            &&& !lacking ==> {
                &&& state == ReloadState::Discovering
                &&& action is Discover
                &&& request_is(d, Ok(action->request))
            }
        }),
{
}

/// Law: the table of a list of backends is filled in turn. The backends take turns in the
/// order of the list, and each takes the slot it prefers by its address and port among
/// those still free. `order` are the slots in the order in which they are claimed.
pub proof fn backend_tables_are_filled_in_turn(list: Seq<BackendView>) -> (order: Seq<int>)
    requires
        list.len() > 0,
    ensures
        order.len() == 65537,
        order.no_duplicates(),
        forall|i: int|
            0 <= i < 65537 ==> 0 <= #[trigger] order[i] < 65537 && table_of(list)[order[i]] == i
                % list.len() as int && is_preferred(
                list[i % list.len() as int].key(),
                order.take(i),
                order[i],
            ),
{
    let keys = keys_of(list);
    let order = backends_claim_slots_in_turn(keys);
    assert forall|i: int| 0 <= i < 65537 implies 0 <= #[trigger] order[i] < 65537 && table_of(
        list,
    )[order[i]] == i % list.len() as int && is_preferred(
        list[i % list.len() as int].key(),
        order.take(i),
        order[i],
    ) by {
        vstd::arithmetic::div_mod::lemma_mod_bound(i, list.len() as int);
        assert(keys[i % list.len() as int] == list[i % list.len() as int].key());
    }
    order
}

} // verus!
