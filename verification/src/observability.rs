//! Observability state with integer values: request and error counters,
//! per-component gauges, and the health table shown in snapshots.

use vstd::prelude::*;
use crate::text::str_eq;
use crate::wal::{chars_lt, lemma_chars_lt_asym, lemma_multiset_insert, str_lt};

verus! {

/// A component's condition.
#[derive(Debug, Clone, Copy, PartialEq, Eq, Structural)]
pub enum ComponentState {
    Healthy,
    Degraded,
    Down,
}

/// What a component last reported of its health.
#[derive(Debug, Clone)]
pub struct ComponentHealth {
    pub component: String,
    pub state: ComponentState,
    pub detail: String,
    pub updated_at_ms: u64,
}

impl ComponentHealth {
    /// A copy of the report.
    pub fn duplicate(&self) -> (r: ComponentHealth)
        ensures
            r.component == self.component,
            r.state == self.state,
            r.detail == self.detail,
            r.updated_at_ms == self.updated_at_ms,
    {
        ComponentHealth {
            component: self.component.clone(),
            state: self.state,
            detail: self.detail.clone(),
            updated_at_ms: self.updated_at_ms,
        }
    }
}

/// A gauge value as recorded: negative readings count as zero.
pub fn gauge_value(v: i64) -> (r: i64)
    ensures
        r == if v < 0 { 0 } else { v },
{
    if v < 0 { 0 } else { v }
}

/// The health table: the last report of each component.
pub struct HealthTable {
    entries: Vec<ComponentHealth>,
}

/// A health report as plain values: component, state, detail, time.
pub type HealthView = (Seq<char>, ComponentState, Seq<char>, u64);

/// The views of health reports.
pub open spec fn health_views(s: Seq<ComponentHealth>) -> Seq<HealthView> {
    s.map_values(|h: ComponentHealth| (h.component@, h.state, h.detail@, h.updated_at_ms))
}

impl HealthTable {
    /// The reports held, in table order.
    pub closed spec fn reports(&self) -> Seq<HealthView> {
        health_views(self.entries@)
    }

    /// The internal consistency of the table: one report per component.
    pub open spec fn wf(&self) -> bool {
        forall|i: int, j: int| 0 <= i < j < self.reports().len() ==> (#[trigger] self.reports()[i]).0 != (#[trigger] self.reports()[j]).0
    }

    /// An empty table.
    pub fn new() -> (r: HealthTable)
        ensures
            r.wf(),
            r.reports().len() == 0,
    {
        let r = HealthTable { entries: Vec::new() };
        assert(health_views(r.entries@) =~= Seq::empty());
        r
    }

    /// Records a report, replacing the component's earlier one.
    pub fn update(&mut self, report: ComponentHealth)
        requires
            old(self).wf(),
        ensures
            final(self).wf(),
            ({
                let v = (report.component@, report.state, report.detail@, report.updated_at_ms);
                if exists|i: int| 0 <= i < old(self).reports().len() && old(self).reports()[i].0 == v.0 {
                    exists|i: int| 0 <= i < old(self).reports().len() && old(self).reports()[i].0 == v.0
                        && final(self).reports() == old(self).reports().update(i, v)
                } else {
                    final(self).reports() == old(self).reports().push(v)
                }
            }),
    {
        let ghost old_r = self.reports();
        let ghost v = (report.component@, report.state, report.detail@, report.updated_at_ms);
        let mut i: usize = 0;
        while i < self.entries.len()
            invariant
                i <= old_r.len(),
                old_r == health_views(self.entries@),
                self.entries@ == old(self).entries@,
                old(self).wf(),
                old_r == old(self).reports(),
                v == (report.component@, report.state, report.detail@, report.updated_at_ms),
                forall|k: int| 0 <= k < i ==> (#[trigger] old_r[k]).0 != v.0,
            decreases old_r.len() - i,
        {
            assert(old_r[i as int].0 == self.entries@[i as int].component@);
            if str_eq(self.entries[i].component.as_str(), report.component.as_str()) {
                self.entries.set(i, report);
                proof {
                    assert(health_views(self.entries@) =~= old_r.update(i as int, v));
                    let n = health_views(self.entries@);
                    assert forall|x: int, y: int| 0 <= x < y < n.len() implies (#[trigger] n[x]).0 != (#[trigger] n[y]).0 by {
                        if x == i {
                            assert(old_r[x].0 != old_r[y].0);
                        } else if y == i {
                            assert(old_r[x].0 != old_r[y].0);
                        } else {
                            assert(old_r[x].0 != old_r[y].0);
                        }
                    }
                }
                return;
            }
            i = i + 1;
        }
        self.entries.push(report);
        proof {
            let n = health_views(self.entries@);
            assert(n =~= old_r.push(v));
            assert forall|x: int, y: int| 0 <= x < y < n.len() implies (#[trigger] n[x]).0 != (#[trigger] n[y]).0 by {
                if y == n.len() - 1 {
                    assert(n[x] == old_r[x]);
                } else {
                    assert(n[x] == old_r[x] && n[y] == old_r[y]);
                }
            }
        }
    }

    /// The reports ordered by component name.
    pub fn sorted(&self) -> (r: Vec<ComponentHealth>)
        requires
            self.wf(),
        ensures
            health_views(r@).to_multiset() == self.reports().to_multiset(),
            forall|i: int| 0 <= i < r@.len() - 1 ==> !chars_lt((#[trigger] r@[i + 1]).component@, r@[i].component@),
    {
        let ghost rs = self.reports();
        let mut out: Vec<ComponentHealth> = Vec::new();
        let mut i: usize = 0;
        assert(rs.take(0) =~= Seq::<HealthView>::empty());
        proof {
            assert(health_views(out@) =~= Seq::<HealthView>::empty());
        }
        while i < self.entries.len()
            invariant
                i <= rs.len(),
                rs == health_views(self.entries@),
                health_views(out@).to_multiset() == rs.take(i as int).to_multiset(),
                forall|j: int| 0 <= j < out@.len() - 1 ==> !chars_lt((#[trigger] out@[j + 1]).component@, out@[j].component@),
            decreases rs.len() - i,
        {
            let e = self.entries[i].duplicate();
            let ghost ecv = e.component@;
            let mut k: usize = 0;
            let mut found = false;
            while k < out.len() && !found
                invariant
                    k <= out@.len(),
                    ecv == e.component@,
                    k > 0 ==> !chars_lt(ecv, out@[k - 1].component@),
                    found ==> k < out@.len() && chars_lt(ecv, out@[k as int].component@),
                decreases out@.len() - k, if found { 0int } else { 1int },
            {
                if str_lt(e.component.as_str(), out[k].component.as_str()) {
                    found = true;
                } else {
                    k = k + 1;
                }
            }
            let ghost before = out@;
            out.insert(k, e);
            proof {
                assert(rs.take(i + 1) =~= rs.take(i as int).push(rs[i as int]));
                rs.take(i as int).to_multiset_ensures();
                assert(health_views(out@) =~= health_views(before).insert(k as int, rs[i as int]));
                lemma_multiset_insert(health_views(before), k as int, rs[i as int]);
                if k < before.len() {
                    lemma_chars_lt_asym(ecv, before[k as int].component@);
                }
                assert forall|j: int| 0 <= j < out@.len() - 1 implies !chars_lt((#[trigger] out@[j + 1]).component@, out@[j].component@) by {
                    if j + 1 < k {
                        assert(out@[j] == before[j] && out@[j + 1] == before[j + 1]);
                    } else if j + 1 == k {
                        assert(out@[j] == before[j]);
                    } else if j == k {
                        assert(out@[j + 1] == before[j]);
                    } else {
                        assert(out@[j] == before[j - 1] && out@[j + 1] == before[j]);
                        assert(!chars_lt(before[(j - 1) + 1].component@, before[j - 1].component@));
                    }
                }
            }
            i = i + 1;
        }
        assert(rs.take(rs.len() as int) =~= rs);
        out
    }
}

/// Gauge readings by name, the last reading of a name being its value.
pub open spec fn gauge_lookup(g: Seq<(Seq<char>, i64)>, name: Seq<char>) -> Option<i64>
    decreases g.len(),
{
    if g.len() == 0 {
        None
    } else if g.last().0 == name {
        Some(g.last().1)
    } else {
        gauge_lookup(g.drop_last(), name)
    }
}

/// The readings of a gauge set.
pub open spec fn gauge_views(g: Seq<(String, i64)>) -> Seq<(Seq<char>, i64)> {
    g.map_values(|e: (String, i64)| (e.0@, e.1))
}

/// Each name read once, and no reading negative.
pub open spec fn gauges_wf(g: Seq<(Seq<char>, i64)>) -> bool {
    &&& forall|i: int, j: int| 0 <= i < j < g.len() ==> (#[trigger] g[i]).0 != (#[trigger] g[j]).0
    &&& forall|i: int| 0 <= i < g.len() ==> (#[trigger] g[i]).1 >= 0
}

/// The sum of the readings.
pub open spec fn gauge_total(g: Seq<(Seq<char>, i64)>) -> int
    decreases g.len(),
{
    if g.len() == 0 {
        0
    } else {
        gauge_total(g.drop_last()) + g.last().1
    }
}

/// The reading of a name held at index `j` of a gauge set with distinct names.
proof fn lemma_gauge_lookup_at(g: Seq<(Seq<char>, i64)>, j: int)
    requires
        gauges_wf(g),
        0 <= j < g.len(),
    ensures
        gauge_lookup(g, g[j].0) == Some(g[j].1),
    decreases g.len(),
{
    if j < g.len() - 1 {
        assert(g[j].0 != g[g.len() - 1].0);
        assert(g.drop_last()[j] == g[j]);
        lemma_gauge_lookup_at(g.drop_last(), j);
    }
}

/// A name that no reading has is not found.
proof fn lemma_gauge_lookup_absent(g: Seq<(Seq<char>, i64)>, name: Seq<char>)
    requires
        forall|i: int| 0 <= i < g.len() ==> (#[trigger] g[i]).0 != name,
    ensures
        gauge_lookup(g, name) is None,
    decreases g.len(),
{
    if g.len() > 0 {
        assert(g.last() == g[g.len() - 1]);
        assert forall|i: int| 0 <= i < g.drop_last().len() implies (#[trigger] g.drop_last()[i]).0 != name by {
            assert(g.drop_last()[i] == g[i]);
        }
        lemma_gauge_lookup_absent(g.drop_last(), name);
    }
}

/// Replacing the reading at `j` changes the lookup of its name only, and
/// the total by the difference.
proof fn lemma_gauge_update(g: Seq<(Seq<char>, i64)>, j: int, v: i64, c: Seq<char>)
    requires
        gauges_wf(g),
        0 <= j < g.len(),
    ensures
        gauge_lookup(g.update(j, (g[j].0, v)), c) == if c == g[j].0 { Some(v) } else { gauge_lookup(g, c) },
        gauge_total(g.update(j, (g[j].0, v))) == gauge_total(g) - g[j].1 + v,
    decreases g.len(),
{
    let u = g.update(j, (g[j].0, v));
    if j == g.len() - 1 {
        assert(u.drop_last() =~= g.drop_last());
    } else {
        assert(u.drop_last() =~= g.drop_last().update(j, (g[j].0, v)));
        assert(g.drop_last()[j] == g[j]);
        assert(g[j].0 != g[g.len() - 1].0);
        lemma_gauge_update(g.drop_last(), j, v, c);
    }
}

/// Records `v` as the reading of `name`: replaces its reading or adds one.
fn set_gauge(g: &mut Vec<(String, i64)>, name: &str, v: i64)
    requires
        gauges_wf(gauge_views(old(g)@)),
        v >= 0,
    ensures
        gauges_wf(gauge_views(final(g)@)),
        gauge_lookup(gauge_views(final(g)@), name@) == Some(v),
        forall|c: Seq<char>| c != name@ ==> gauge_lookup(gauge_views(final(g)@), c) == gauge_lookup(gauge_views(old(g)@), c),
        gauge_total(gauge_views(final(g)@)) == gauge_total(gauge_views(old(g)@)) - (match gauge_lookup(gauge_views(old(g)@), name@) {
            Some(x) => x as int,
            None => 0int,
        }) + v,
{
    let ghost before = gauge_views(g@);
    let mut i: usize = 0;
    while i < g.len()
        invariant
            i <= g@.len(),
            before == gauge_views(g@),
            before == gauge_views(old(g)@),
            gauges_wf(before),
            v >= 0,
            forall|k: int| 0 <= k < i ==> (#[trigger] before[k]).0 != name@,
        decreases g@.len() - i,
    {
        if str_eq(g[i].0.as_str(), name) {
            proof {
                assert(before[i as int] == (g@[i as int].0@, g@[i as int].1));
                assert(before[i as int].0 == name@);
                lemma_gauge_lookup_at(before, i as int);
                assert forall|c: Seq<char>| true implies gauge_lookup(before.update(i as int, (name@, v)), c) == if c == name@ { Some(v) } else { gauge_lookup(before, c) } by {
                    lemma_gauge_update(before, i as int, v, c);
                }
                lemma_gauge_update(before, i as int, v, name@);
            }
            g.set(i, (name.to_string(), v));
            proof {
                assert(gauge_views(g@) =~= before.update(i as int, (name@, v)));
                let u = before.update(i as int, (name@, v));
                assert forall|a: int, b: int| 0 <= a < b < u.len() implies (#[trigger] u[a]).0 != (#[trigger] u[b]).0 by {
                    assert(u[a].0 == before[a].0 && u[b].0 == before[b].0);
                }
            }
            return;
        }
        proof {
            assert(before[i as int] == (g@[i as int].0@, g@[i as int].1));
        }
        i = i + 1;
    }
    proof {
        lemma_gauge_lookup_absent(before, name@);
    }
    g.push((name.to_string(), v));
    proof {
        let after = before.push((name@, v));
        assert(gauge_views(g@) =~= after);
        assert(after.drop_last() =~= before);
        assert forall|c: Seq<char>| c != name@ implies gauge_lookup(after, c) == gauge_lookup(before, c) by {}
        assert forall|a: int, b: int| 0 <= a < b < after.len() implies (#[trigger] after[a]).0 != (#[trigger] after[b]).0 by {
            if b == before.len() {
                assert(after[a] == before[a]);
            } else {
                assert(after[a] == before[a] && after[b] == before[b]);
            }
        }
        assert forall|a: int| 0 <= a < after.len() implies (#[trigger] after[a]).1 >= 0 by {
            if a < before.len() {
                assert(after[a] == before[a]);
            }
        }
    }
}

/// Sums the readings.
fn sum_gauges(g: &Vec<(String, i64)>) -> (r: i128)
    requires
        gauges_wf(gauge_views(g@)),
    ensures
        r == gauge_total(gauge_views(g@)),
{
    let ghost gv = gauge_views(g@);
    let mut total: i128 = 0;
    let mut i: usize = 0;
    assert(gv.take(0) =~= Seq::<(Seq<char>, i64)>::empty());
    while i < g.len()
        invariant
            i <= gv.len(),
            gv == gauge_views(g@),
            gauges_wf(gv),
            total == gauge_total(gv.take(i as int)),
            0 <= total <= i as int * 0x7fff_ffff_ffff_ffffint,
        decreases gv.len() - i,
    {
        proof {
            assert(gv.take(i + 1).drop_last() =~= gv.take(i as int));
            assert(gv.take(i + 1).last() == gv[i as int]);
            assert(gv[i as int].1 >= 0);
            assert(i < 0x1_0000_0000_0000_0000int);
        }
        total = total + g[i].1 as i128;
        i = i + 1;
    }
    assert(gv.take(gv.len() as int) =~= gv);
    total
}

/// The observability state a process keeps: counters, gauges and health.
pub struct ObservabilityState {
    request_count: u64,
    error_count: u64,
    active_connections: Vec<(String, i64)>,
    queue_depths: Vec<(String, i64)>,
    health: HealthTable,
}

impl ObservabilityState {
    /// Requests seen.
    pub closed spec fn requests(&self) -> u64 {
        self.request_count
    }

    /// Failed requests seen.
    pub closed spec fn errors(&self) -> u64 {
        self.error_count
    }

    /// The open connections reported for a component.
    pub closed spec fn connections(&self, component: Seq<char>) -> Option<i64> {
        gauge_lookup(gauge_views(self.active_connections@), component)
    }

    /// The depth reported for a queue.
    pub closed spec fn depth(&self, queue: Seq<char>) -> Option<i64> {
        gauge_lookup(gauge_views(self.queue_depths@), queue)
    }

    /// The sum of the open connections last reported by each component.
    pub closed spec fn connections_total(&self) -> int {
        gauge_total(gauge_views(self.active_connections@))
    }

    /// The sum of the depths last reported for each queue.
    pub closed spec fn depth_total(&self) -> int {
        gauge_total(gauge_views(self.queue_depths@))
    }

    /// The health reports held.
    pub closed spec fn health_reports(&self) -> Seq<HealthView> {
        self.health.reports()
    }

    /// The internal consistency of the state.
    pub closed spec fn wf(&self) -> bool {
        &&& self.health.wf()
        &&& gauges_wf(gauge_views(self.active_connections@))
        &&& gauges_wf(gauge_views(self.queue_depths@))
    }

    /// A state with nothing observed.
    pub fn new() -> (r: ObservabilityState)
        ensures
            r.wf(),
            r.requests() == 0 && r.errors() == 0,
            forall|c: Seq<char>| r.connections(c) is None && r.depth(c) is None,
            r.connections_total() == 0 && r.depth_total() == 0,
            r.health_reports().len() == 0,
    {
        let r = ObservabilityState {
            request_count: 0,
            error_count: 0,
            active_connections: Vec::new(),
            queue_depths: Vec::new(),
            health: HealthTable::new(),
        };
        assert(gauge_views(r.active_connections@) =~= Seq::empty());
        assert(gauge_views(r.queue_depths@) =~= Seq::empty());
        r
    }

    /// Counts a request (and an error when it failed), saturating.
    pub fn record_request(&mut self, is_error: bool)
        requires
            old(self).wf(),
        ensures
            final(self).wf(),
            final(self).requests() == if old(self).requests() == u64::MAX { u64::MAX } else { (old(self).requests() + 1) as u64 },
            final(self).errors() == if is_error && old(self).errors() < u64::MAX { (old(self).errors() + 1) as u64 } else { old(self).errors() },
            forall|c: Seq<char>| final(self).connections(c) == old(self).connections(c) && final(self).depth(c) == old(self).depth(c),
            final(self).connections_total() == old(self).connections_total(),
            final(self).depth_total() == old(self).depth_total(),
            final(self).health_reports() == old(self).health_reports(),
    {
        self.request_count = self.request_count.saturating_add(1);
        if is_error {
            self.error_count = self.error_count.saturating_add(1);
        }
    }

    /// Records a component's open connections (negative readings as zero).
    pub fn set_active_connections(&mut self, component: &str, connections: i64)
        requires
            old(self).wf(),
        ensures
            final(self).wf(),
            final(self).connections(component@) == Some(if connections < 0 { 0i64 } else { connections }),
            forall|c: Seq<char>| c != component@ ==> final(self).connections(c) == old(self).connections(c),
            final(self).connections_total() == old(self).connections_total() - (match old(self).connections(component@) {
                Some(x) => x as int,
                None => 0int,
            }) + (if connections < 0 { 0int } else { connections as int }),
            forall|c: Seq<char>| final(self).depth(c) == old(self).depth(c),
            final(self).depth_total() == old(self).depth_total(),
            final(self).requests() == old(self).requests() && final(self).errors() == old(self).errors(),
            final(self).health_reports() == old(self).health_reports(),
    {
        let v = gauge_value(connections);
        set_gauge(&mut self.active_connections, component, v);
    }

    /// Records a queue's depth (negative readings as zero).
    pub fn set_queue_depth(&mut self, queue: &str, depth: i64)
        requires
            old(self).wf(),
        ensures
            final(self).wf(),
            final(self).depth(queue@) == Some(if depth < 0 { 0i64 } else { depth }),
            forall|c: Seq<char>| c != queue@ ==> final(self).depth(c) == old(self).depth(c),
            final(self).depth_total() == old(self).depth_total() - (match old(self).depth(queue@) {
                Some(x) => x as int,
                None => 0int,
            }) + (if depth < 0 { 0int } else { depth as int }),
            forall|c: Seq<char>| final(self).connections(c) == old(self).connections(c),
            final(self).connections_total() == old(self).connections_total(),
            final(self).requests() == old(self).requests() && final(self).errors() == old(self).errors(),
            final(self).health_reports() == old(self).health_reports(),
    {
        let v = gauge_value(depth);
        set_gauge(&mut self.queue_depths, queue, v);
    }

    /// Records a component's health at `now_ms`, replacing its last report.
    pub fn update_component_health(&mut self, component: &str, state: ComponentState, detail: String, now_ms: u64)
        requires
            old(self).wf(),
        ensures
            final(self).wf(),
            ({
                let v = (component@, state, detail@, now_ms);
                let old_r = old(self).health_reports();
                if exists|i: int| 0 <= i < old_r.len() && old_r[i].0 == v.0 {
                    exists|i: int| 0 <= i < old_r.len() && old_r[i].0 == v.0 && final(self).health_reports() == old_r.update(i, v)
                } else {
                    final(self).health_reports() == old_r.push(v)
                }
            }),
            forall|c: Seq<char>| final(self).connections(c) == old(self).connections(c) && final(self).depth(c) == old(self).depth(c),
            final(self).requests() == old(self).requests() && final(self).errors() == old(self).errors(),
    {
        self.health.update(ComponentHealth { component: component.to_string(), state, detail, updated_at_ms: now_ms });
    }

    /// The health reports ordered by component name.
    pub fn component_health(&self) -> (r: Vec<ComponentHealth>)
        requires
            self.wf(),
        ensures
            health_views(r@).to_multiset() == self.health_reports().to_multiset(),
            forall|i: int| 0 <= i < r@.len() - 1 ==> !chars_lt((#[trigger] r@[i + 1]).component@, r@[i].component@),
    {
        self.health.sorted()
    }
}

/// Reports a component's open connections to the agent's state.
pub fn observe_active_connections(agent: &mut ObservabilityState, component: &str, connections: i64)
    requires
        old(agent).wf(),
    ensures
        final(agent).wf(),
        final(agent).connections(component@) == Some(if connections < 0 { 0i64 } else { connections }),
        forall|c: Seq<char>| c != component@ ==> final(agent).connections(c) == old(agent).connections(c),
        final(agent).connections_total() == old(agent).connections_total() - (match old(agent).connections(component@) {
            Some(x) => x as int,
            None => 0int,
        }) + (if connections < 0 { 0int } else { connections as int }),
{
    agent.set_active_connections(component, connections);
}

/// Reports a queue's depth to the agent's state.
pub fn observe_queue_depth(agent: &mut ObservabilityState, queue: &str, depth: i64)
    requires
        old(agent).wf(),
    ensures
        final(agent).wf(),
        final(agent).depth(queue@) == Some(if depth < 0 { 0i64 } else { depth }),
        forall|c: Seq<char>| c != queue@ ==> final(agent).depth(c) == old(agent).depth(c),
        final(agent).depth_total() == old(agent).depth_total() - (match old(agent).depth(queue@) {
            Some(x) => x as int,
            None => 0int,
        }) + (if depth < 0 { 0int } else { depth as int }),
{
    agent.set_queue_depth(queue, depth);
}

/// Reports a component's health, at `now_ms`, to the agent's state.
pub fn observe_component_health(agent: &mut ObservabilityState, component: &str, state: ComponentState, detail: String, now_ms: u64)
    requires
        old(agent).wf(),
    ensures
        final(agent).wf(),
        ({
            let v = (component@, state, detail@, now_ms);
            let old_r = old(agent).health_reports();
            if exists|i: int| 0 <= i < old_r.len() && old_r[i].0 == v.0 {
                exists|i: int| 0 <= i < old_r.len() && old_r[i].0 == v.0 && final(agent).health_reports() == old_r.update(i, v)
            } else {
                final(agent).health_reports() == old_r.push(v)
            }
        }),
{
    agent.update_component_health(component, state, detail, now_ms);
}

impl ObservabilityState {
    /// The open connections last reported for `component`.
    pub fn connections_of(&self, component: &str) -> (r: Option<i64>)
        ensures
            r == self.connections(component@),
    {
        let ghost g = gauge_views(self.active_connections@);
        let mut i: usize = self.active_connections.len();
        assert(g.take(i as int) =~= g);
        while i > 0
            invariant
                i <= g.len(),
                g == gauge_views(self.active_connections@),
                gauge_lookup(g, component@) == gauge_lookup(g.take(i as int), component@),
            decreases i,
        {
            assert(g.take(i as int).drop_last() =~= g.take(i - 1));
            if str_eq(self.active_connections[i - 1].0.as_str(), component) {
                return Some(self.active_connections[i - 1].1);
            }
            i = i - 1;
        }
        None
    }

    /// The depth last reported for `queue`.
    pub fn depth_of(&self, queue: &str) -> (r: Option<i64>)
        ensures
            r == self.depth(queue@),
    {
        let ghost g = gauge_views(self.queue_depths@);
        let mut i: usize = self.queue_depths.len();
        assert(g.take(i as int) =~= g);
        while i > 0
            invariant
                i <= g.len(),
                g == gauge_views(self.queue_depths@),
                gauge_lookup(g, queue@) == gauge_lookup(g.take(i as int), queue@),
            decreases i,
        {
            assert(g.take(i as int).drop_last() =~= g.take(i - 1));
            if str_eq(self.queue_depths[i - 1].0.as_str(), queue) {
                return Some(self.queue_depths[i - 1].1);
            }
            i = i - 1;
        }
        None
    }

    /// The open connections summed over the components: each one's last
    /// report counts once.
    pub fn active_connections_total(&self) -> (r: i128)
        requires
            self.wf(),
        ensures
            r == self.connections_total(),
    {
        sum_gauges(&self.active_connections)
    }

    /// The queue depth summed over the queues: each one's last report
    /// counts once.
    pub fn queue_depth_total(&self) -> (r: i128)
        requires
            self.wf(),
        ensures
            r == self.depth_total(),
    {
        sum_gauges(&self.queue_depths)
    }

    /// The requests and failed requests counted.
    pub fn counts(&self) -> (r: (u64, u64))
        ensures
            r == (self.requests(), self.errors()),
    {
        (self.request_count, self.error_count)
    }
}

} // verus!
