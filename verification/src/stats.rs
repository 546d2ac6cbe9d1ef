use vstd::prelude::*;

verus! {

use crate::db::db_wf;
use crate::db::last_net_join;
use crate::db::Database;
use crate::strutil::str_eq;
use crate::types::EventKind;
use crate::types::HostConfig;
use crate::types::HostConfigV;
use crate::types::HostGroup;
use crate::types::HostGroupV;
use crate::types::HostStat;
use crate::types::HostStatV;
use crate::types::StatsResp;
use crate::types::Tunables;

/// One queued notification: an event kind with the live entry it concerns.
pub struct Notice {
    pub kind: EventKind,
    pub stat: HostStat,
}

/// Mathematical image of a [`Notice`].
pub struct NoticeV {
    pub kind: EventKind,
    pub stat: HostStatV,
}

impl View for Notice {
    type V = NoticeV;

    open spec fn view(&self) -> NoticeV {
        NoticeV { kind: self.kind, stat: self.stat@ }
    }
}

impl DeepView for Notice {
    type V = NoticeV;

    open spec fn deep_view(&self) -> NoticeV {
        self.view()
    }
}

/// Some registry entry carries `name`.
pub open spec fn has_cfg(cfgs: Seq<HostConfigV>, name: Seq<char>) -> bool {
    exists|i: int| 0 <= i < cfgs.len() && (#[trigger] cfgs[i]).name == name
}

/// The index of the registry entry carrying `name`; under `mgr_wf` unique.
pub open spec fn cfg_idx(cfgs: Seq<HostConfigV>, name: Seq<char>) -> int {
    choose|i: int| 0 <= i < cfgs.len() && (#[trigger] cfgs[i]).name == name
}

/// Some group template carries `gid`.
pub open spec fn has_group(gs: Seq<HostGroupV>, gid: Seq<char>) -> bool {
    exists|i: int| 0 <= i < gs.len() && (#[trigger] gs[i]).gid == gid
}

/// The index of the group template carrying `gid`; under `mgr_wf` unique.
pub open spec fn group_idx(gs: Seq<HostGroupV>, gid: Seq<char>) -> int {
    choose|i: int| 0 <= i < gs.len() && (#[trigger] gs[i]).gid == gid
}

/// Some live entry carries `name`.
pub open spec fn has_live(ls: Seq<HostStatV>, name: Seq<char>) -> bool {
    exists|i: int| 0 <= i < ls.len() && (#[trigger] ls[i]).name == name
}

/// The index of the live entry carrying `name`; under `mgr_wf` unique.
pub open spec fn live_idx(ls: Seq<HostStatV>, name: Seq<char>) -> int {
    choose|i: int| 0 <= i < ls.len() && (#[trigger] ls[i]).name == name
}

/// The reconciliation engine and snapshot publisher: owns the registry, the
/// live map, the store, the published snapshot and the two debounce clocks.
pub struct StatsMgr {
    pub tunables: Tunables,
    pub hosts_map: Vec<HostConfig>,
    pub groups: Vec<HostGroup>,
    pub stat_map: Vec<HostStat>,
    pub db: Database,
    pub resp: StatsResp,
    pub latest_notify_ts: u64,
    pub latest_group_gc: u64,
}

/// Well-formedness of the engine: the store is well-formed, registry and live
/// entries are unique per host name, group templates unique per group id.
pub open spec fn mgr_wf(m: &StatsMgr) -> bool {
    &&& db_wf(m.db@)
    &&& forall|i: int, j: int|
        0 <= i < j < m.hosts_map.deep_view().len() ==> (#[trigger] m.hosts_map.deep_view()[i]).name
            != (#[trigger] m.hosts_map.deep_view()[j]).name
    &&& forall|i: int, j: int|
        0 <= i < j < m.stat_map.deep_view().len() ==> (#[trigger] m.stat_map.deep_view()[i]).name
            != (#[trigger] m.stat_map.deep_view()[j]).name
    &&& forall|i: int, j: int|
        0 <= i < j < m.groups.deep_view().len() ==> (#[trigger] m.groups.deep_view()[i]).gid != (
        #[trigger] m.groups.deep_view()[j]).gid
}

/// One startup counter load: the registry entry named by one stored anchor
/// row takes the stored cumulative counters.
pub open spec fn apply_last_one(
    cfgs: Seq<HostConfigV>,
    name: Seq<char>,
    li: u64,
    lo: u64,
) -> Seq<HostConfigV> {
    if has_cfg(cfgs, name) {
        let i = cfg_idx(cfgs, name);
        cfgs.update(
            i,
            HostConfigV { last_network_in: li, last_network_out: lo, ..cfgs[i] },
        )
    } else {
        cfgs
    }
}

/// The registry after loading every stored counter anchor, in table order.
pub open spec fn apply_last_net(
    cfgs: Seq<HostConfigV>,
    rows: Seq<(Seq<char>, u64, u64)>,
) -> Seq<HostConfigV>
    decreases rows.len(),
{
    if rows.len() == 0 {
        cfgs
    } else {
        apply_last_one(
            apply_last_net(cfgs, rows.drop_last()),
            rows.last().0,
            rows.last().1,
            rows.last().2,
        )
    }
}


/// A report under a group id with no alias defaults its alias to its name.
pub open spec fn stage_alias(stat: HostStatV) -> HostStatV {
    if stat.gid.len() > 0 && stat.alias.len() == 0 {
        HostStatV { alias: stat.name, ..stat }
    } else {
        stat
    }
}

/// Group resolution: a report under a group id that the registry does not
/// yet carry under that group instantiates a fresh registry entry from the
/// group template, keeping any prior counter anchors; an unknown group leaves
/// the registry unchanged (the report is dropped).
pub open spec fn group_resolve(
    reg0: Seq<HostConfigV>,
    groups: Seq<HostGroupV>,
    s0: HostStatV,
) -> Seq<HostConfigV> {
    if s0.gid.len() == 0 {
        reg0
    } else if has_cfg(reg0, s0.name) && reg0[cfg_idx(reg0, s0.name)].gid == s0.gid {
        reg0
    } else if has_group(groups, s0.gid) {
        let g = groups[group_idx(groups, s0.gid)];
        let inst0 = crate::types::spec_inst_host(g, s0.name, s0.latest_ts);
        if has_cfg(reg0, s0.name) {
            let i = cfg_idx(reg0, s0.name);
            reg0.update(
                i,
                HostConfigV {
                    last_network_in: reg0[i].last_network_in,
                    last_network_out: reg0[i].last_network_out,
                    ..inst0
                },
            )
        } else {
            reg0.push(inst0)
        }
    } else {
        reg0
    }
}

/// Field backfill: empty location and type take the registry's, notify is
/// the conjunction, position, disabled flag and labels copy over, weights
/// add (saturating), a non-empty registry alias wins.
pub open spec fn merge_with_cfg(stat: HostStatV, info: HostConfigV) -> HostStatV {
    HostStatV {
        location: if stat.location.len() == 0 {
            info.location
        } else {
            stat.location
        },
        host_type: if stat.host_type.len() == 0 {
            info.host_type
        } else {
            stat.host_type
        },
        notify: info.notify && stat.notify,
        pos: info.pos,
        disabled: info.disabled,
        weight: if stat.weight + info.weight > u64::MAX {
            u64::MAX
        } else {
            (stat.weight + info.weight) as u64
        },
        labels: info.labels,
        alias: if info.alias.len() > 0 {
            info.alias
        } else {
            stat.alias
        },
        ..stat
    }
}

/// When the stored anchor resets to the report's raw counters: on the very
/// first sample, when the counter went backward, or in the first five
/// minutes of hour zero of the configured monthly reset day.
pub open spec fn reset_due(
    anchor: u64,
    rep: u64,
    lday: u32,
    lhour: u32,
    lmin: u32,
    monthstart: u32,
) -> bool {
    anchor == 0 || (rep != 0 && anchor > rep) || (lday == monthstart && lhour == 0 && lmin < 5)
}

/// Counter-reset monotonicity: on any report whose cumulative counter is
/// non-zero, the anchor in force after the reset decision never exceeds the
/// counter, so the derived since-anchor usage cannot go negative. (A report
/// with a zero counter against a non-zero anchor is the one shape this does
/// not cover: the original keeps the larger anchor there.)
pub proof fn lemma_counter_reset_monotone(
    anchor: u64,
    rep: u64,
    lday: u32,
    lhour: u32,
    lmin: u32,
    monthstart: u32,
)
    requires
        rep != 0,
    ensures
        ({
            let new_anchor = if reset_due(anchor, rep, lday, lhour, lmin, monthstart) {
                rep
            } else {
                anchor
            };
            new_anchor <= rep
        }),
{
}

/// The live map after recording a merged report: the entry with its name
/// replaced, or appended on first sight.
pub open spec fn live_upsert(live: Seq<HostStatV>, s: HostStatV) -> Seq<HostStatV> {
    if has_live(live, s.name) {
        live.update(live_idx(live, s.name), s)
    } else {
        live.push(s)
    }
}

/// What one report does to the engine: the outcome, the registry and live
/// map afterwards, the fully merged entry, whether a node-up event fires,
/// and whether the stored counter anchor was rewritten.
pub struct MgrStep {
    pub outcome: crate::types::ReportOutcome,
    pub registry: Seq<HostConfigV>,
    pub live: Seq<HostStatV>,
    pub merged: HostStatV,
    pub node_up: bool,
    pub counter_write: bool,
}



/// The sweep's full effect at instant `now`: throttled group GC over both
/// maps, the per-entry tick on the surviving live entries, the notifications
/// in live-map order, the two debounce clocks, the offline transition both
/// ways, and a sorted snapshot holding exactly the adjusted entries.
pub open spec fn sweep_matches(
    tun: Tunables,
    reg0: Seq<HostConfigV>,
    live0: Seq<HostStatV>,
    lgc0: u64,
    lnt0: u64,
    reg_new: Seq<HostConfigV>,
    live_new: Seq<HostStatV>,
    resp_new: crate::types::StatsRespV,
    lgc_new: u64,
    lnt_new: u64,
    ev: Seq<NoticeV>,
    now: u64,
) -> bool {
    let thr = tun.offline_threshold;
    let gcw = tun.group_gc;
    let ni = tun.notify_interval;
    let gc_open = lgc0 + gcw < now;
    let reg1 = if gc_open {
        reg0.filter(|c: HostConfigV| keep_cfg(c, now, gcw))
    } else {
        reg0
    };
    let gcd = if gc_open {
        live0.filter(|s: HostStatV| keep_live(s, now, gcw))
    } else {
        live0
    };
    let gate = lnt0 + ni < now;
    &&& reg_new == reg1
    &&& live_new.len() == gcd.len()
    &&& (forall|i: int|
        0 <= i < gcd.len() ==> live_new[i] == tick_final(#[trigger] gcd[i], now, thr, gate))
    &&& ev == tick_events(gcd, now, thr, gate)
    &&& lgc_new == (if gc_open {
        now
    } else {
        lgc0
    })
    &&& lnt_new == (if gate && any_notify(gcd) {
        now
    } else {
        lnt0
    })
    &&& resp_new.updated == now
    &&& resp_new.servers.to_multiset() == live_new.to_multiset()
    &&& (forall|a: int, b: int|
        0 <= a < b < resp_new.servers.len() ==> crate::order::snap_le(
            #[trigger] resp_new.servers[a],
            #[trigger] resp_new.servers[b],
        ))
    &&& (forall|i: int|
        0 <= i < gcd.len() && !(#[trigger] gcd[i]).disabled ==> {
            let cur = live_new[i];
            &&& (gcd[i].latest_ts + thr < now ==> !cur.online4 && !cur.online6)
            &&& (gcd[i].latest_ts + thr >= now ==> cur.online4 == gcd[i].online4 && cur.online6
                == gcd[i].online6)
        })
    &&& (gc_open ==> (forall|i: int|
        0 <= i < live_new.len() ==> ((#[trigger] live_new[i]).gid.len() > 0 ==> live_new[i].latest_ts
            + gcw >= now)) && (forall|i: int|
        0 <= i < reg1.len() ==> ((#[trigger] reg1[i]).gid.len() > 0 ==> reg1[i].latest_ts + gcw
            >= now)))
}

/// The engine's state change, outcome, notice and store effects agree with
/// the reconciliation transition for the given calendar parts and instant.
pub open spec fn report_matches(
    reg0: Seq<HostConfigV>,
    groups: Seq<HostGroupV>,
    live0: Seq<HostStatV>,
    d0: crate::db::DatabaseV,
    reg_new: Seq<HostConfigV>,
    live_new: Seq<HostStatV>,
    d_new: crate::db::DatabaseV,
    outcome: crate::types::ReportOutcome,
    notice: Option<NoticeV>,
    stat: HostStatV,
    thr: u64,
    now: u64,
    lday: u32,
    lhour: u32,
    lmin: u32,
) -> bool {
    let step = spec_report(reg0, groups, live0, stat, thr, lday, lhour, lmin);
    &&& outcome == step.outcome
    &&& reg_new == step.registry
    &&& live_new == step.live
    &&& (match notice {
        Option::Some(n) => step.node_up && n.kind == EventKind::NodeUp && n.stat == step.merged,
        Option::None => !step.node_up,
    })
    &&& (step.outcome == crate::types::ReportOutcome::Accepted ==> {
        let id = crate::db::ensured_id(d0.hosts, step.merged.name);
        &&& d_new.hosts == crate::db::hosts_after_ensure(
            d0.hosts,
            step.merged.name,
            step.merged.alias,
        )
        &&& d_new.stats == crate::db::stats_after_insert(
            d0.stats,
            crate::db::stat_row_of(step.merged, id),
        )
        &&& d_new.disk_stats == crate::db::disks_after_inserts(
            d0.disk_stats,
            step.merged.disks,
            id,
            step.merged.latest_ts,
        )
        &&& d_new.agg_stats == d0.agg_stats
        &&& d_new.agg_disk_stats == d0.agg_disk_stats
        &&& d_new.last_network == (if step.counter_write {
            crate::db::anchor_upsert(
                d0.last_network,
                id,
                step.merged.network_in,
                step.merged.network_out,
                now,
            )
        } else {
            d0.last_network
        })
    })
    &&& (step.outcome != crate::types::ReportOutcome::Accepted ==> d_new == d0)
}

/// The reconciliation transition, one report at a time: group resolution,
/// registry lookup, field backfill, counter-reset handling, uptime rendering,
/// sticky enrichment and node-up detection, live-map upsert.
#[verifier::opaque]
pub open spec fn spec_report(
    reg0: Seq<HostConfigV>,
    groups: Seq<HostGroupV>,
    live0: Seq<HostStatV>,
    stat: HostStatV,
    thr: u64,
    lday: u32,
    lhour: u32,
    lmin: u32,
) -> MgrStep {
    let s0 = stage_alias(stat);
    if s0.gid.len() > 0 && !(has_cfg(reg0, s0.name) && reg0[cfg_idx(reg0, s0.name)].gid == s0.gid)
        && !has_group(groups, s0.gid) {
        MgrStep {
            outcome: crate::types::ReportOutcome::GroupNotFound,
            registry: reg0,
            live: live0,
            merged: s0,
            node_up: false,
            counter_write: false,
        }
    } else {
        let reg1 = group_resolve(reg0, groups, s0);
        if !has_cfg(reg1, s0.name) {
            MgrStep {
                outcome: crate::types::ReportOutcome::UnregisteredHost,
                registry: reg1,
                live: live0,
                merged: s0,
                node_up: false,
                counter_write: false,
            }
        } else {
            let idx = cfg_idx(reg1, s0.name);
            let info = reg1[idx];
            if info.disabled {
                MgrStep {
                    outcome: crate::types::ReportOutcome::DisabledHost,
                    registry: reg1,
                    live: live0,
                    merged: s0,
                    node_up: false,
                    counter_write: false,
                }
            } else {
                let s1 = merge_with_cfg(s0, info);
                let reset = !s1.vnstat && reset_due(
                    info.last_network_in,
                    s1.network_in,
                    lday,
                    lhour,
                    lmin,
                    info.monthstart,
                );
                let reg2 = if reset {
                    reg1.update(
                        idx,
                        HostConfigV {
                            last_network_in: s1.network_in,
                            last_network_out: s1.network_out,
                            ..info
                        },
                    )
                } else {
                    reg1
                };
                let s2 = if !s1.vnstat && !reset {
                    HostStatV {
                        last_network_in: info.last_network_in,
                        last_network_out: info.last_network_out,
                        ..s1
                    }
                } else {
                    s1
                };
                let s3 = HostStatV {
                    uptime_str: crate::strutil::spec_uptime_str(s2.uptime),
                    ..s2
                };
                let known = has_live(live0, s3.name);
                let prev_ix = live_idx(live0, s3.name);
                let s4 = if known && s3.ip_info is None {
                    HostStatV { ip_info: live0[prev_ix].ip_info, ..s3 }
                } else {
                    s3
                };
                let node_up = known && s4.notify && live0[prev_ix].latest_ts + thr < s4.latest_ts;
                MgrStep {
                    outcome: crate::types::ReportOutcome::Accepted,
                    registry: reg2,
                    live: live_upsert(live0, s4),
                    merged: s4,
                    node_up,
                    counter_write: reset,
                }
            }
        }
    }
}




/// One numeric point of a history series.
#[derive(Clone, Copy, Debug, PartialEq, Eq, Structural)]
pub struct MetricPoint {
    pub timestamp: u64,
    pub value: u64,
}

/// One memory point: the percentage in hundredths alongside the raw gauges.
#[derive(Clone, Copy, Debug, PartialEq, Eq, Structural)]
pub struct MemoryPoint {
    pub timestamp: u64,
    pub value: u64,
    pub total: u64,
    pub used: u64,
}

/// One network point: the speed alongside the cumulative counter.
#[derive(Clone, Copy, Debug, PartialEq, Eq, Structural)]
pub struct NetworkPoint {
    pub timestamp: u64,
    pub value: u64,
    pub total: u64,
}

/// One disk point: the used percentage in hundredths alongside the gauges.
#[derive(Clone, Copy, Debug, PartialEq, Eq, Structural)]
pub struct DiskPoint {
    pub timestamp: u64,
    pub value: u64,
    pub total: u64,
    pub used: u64,
}

/// One mount point's history series.
pub struct MountSeries {
    pub mount_point: String,
    pub points: Vec<DiskPoint>,
}

/// Mathematical image of a [`MountSeries`].
pub struct MountSeriesV {
    pub mount_point: Seq<char>,
    pub points: Seq<DiskPoint>,
}

impl View for MountSeries {
    type V = MountSeriesV;

    open spec fn view(&self) -> MountSeriesV {
        MountSeriesV { mount_point: self.mount_point@, points: self.points@ }
    }
}

impl DeepView for MountSeries {
    type V = MountSeriesV;

    open spec fn deep_view(&self) -> MountSeriesV {
        self.view()
    }
}

/// One host's reshaped range-query slice: per-metric series keyed by
/// timestamp, and one series per mount point.
pub struct HostHistory {
    pub name: String,
    pub alias: String,
    pub online: bool,
    pub data_points: u64,
    pub cpu_history: Vec<MetricPoint>,
    pub memory_history: Vec<MemoryPoint>,
    pub network_in_history: Vec<NetworkPoint>,
    pub network_out_history: Vec<NetworkPoint>,
    pub disks_history: Vec<MountSeries>,
}

/// Mathematical image of a [`HostHistory`].
pub struct HostHistoryV {
    pub name: Seq<char>,
    pub alias: Seq<char>,
    pub online: bool,
    pub data_points: u64,
    pub cpu_history: Seq<MetricPoint>,
    pub memory_history: Seq<MemoryPoint>,
    pub network_in_history: Seq<NetworkPoint>,
    pub network_out_history: Seq<NetworkPoint>,
    pub disks_history: Seq<MountSeriesV>,
}

impl View for HostHistory {
    type V = HostHistoryV;

    open spec fn view(&self) -> HostHistoryV {
        HostHistoryV {
            name: self.name@,
            alias: self.alias@,
            online: self.online,
            data_points: self.data_points,
            cpu_history: self.cpu_history@,
            memory_history: self.memory_history@,
            network_in_history: self.network_in_history@,
            network_out_history: self.network_out_history@,
            disks_history: self.disks_history.deep_view(),
        }
    }
}

impl DeepView for HostHistory {
    type V = HostHistoryV;

    open spec fn deep_view(&self) -> HostHistoryV {
        self.view()
    }
}

/// A whole reshaped range-query response.
pub struct HistoryResp {
    pub updated: u64,
    pub servers: Vec<HostHistory>,
}

/// A used-over-total percentage in hundredths of a percent, saturating;
/// zero when the total is zero.
pub open spec fn percent_bp(used: u64, total: u64) -> u64 {
    if total == 0 {
        0
    } else if used * 10000 / (total as int) > u64::MAX {
        u64::MAX
    } else {
        (used * 10000 / (total as int)) as u64
    }
}

/// Compute `percent_bp` exactly, through a wide intermediate.
pub fn percent_bp_exec(used: u64, total: u64) -> (r: u64)
    ensures
        r == percent_bp(used, total),
{
    if total == 0 {
        return 0;
    }
    let wide = (used as u128) * 10000u128 / (total as u128);
    proof {
        assert(wide == used * 10000 / (total as int)) by (nonlinear_arith)
            requires
                total > 0,
                used >= 0,
                wide == ((used as u128) * 10000) as int / (total as int),
        ;
    }
    if wide > u64::MAX as u128 {
        u64::MAX
    } else {
        wide as u64
    }
}

/// All disk records of a record run, in record-major order.
pub open spec fn all_disk_recs(records: Seq<crate::db::HostStatRecordV>) -> Seq<
    crate::db::DiskRecordV,
>
    decreases records.len(),
{
    if records.len() == 0 {
        Seq::empty()
    } else {
        all_disk_recs(records.drop_last()) + records.last().disks
    }
}

/// The distinct mount points of a disk record run, in first-appearance order.
pub open spec fn mounts_of_recs(rows: Seq<crate::db::DiskRecordV>) -> Seq<Seq<char>>
    decreases rows.len(),
{
    if rows.len() == 0 {
        Seq::empty()
    } else {
        let prev = mounts_of_recs(rows.drop_last());
        if prev.contains(rows.last().mount_point) {
            prev
        } else {
            prev.push(rows.last().mount_point)
        }
    }
}

/// One mount's points over a disk record run.
pub open spec fn disk_points_of(rows: Seq<crate::db::DiskRecordV>, m: Seq<char>) -> Seq<DiskPoint> {
    rows.filter(|d: crate::db::DiskRecordV| d.mount_point == m).map_values(
        |d: crate::db::DiskRecordV|
            DiskPoint {
                timestamp: d.timestamp,
                value: percent_bp(d.used, d.total),
                total: d.total,
                used: d.used,
            },
    )
}

/// The reshaped slice one host's records yield.
pub open spec fn host_history_of(h: crate::db::HostSeriesV) -> HostHistoryV {
    HostHistoryV {
        name: h.name,
        alias: h.records.last().alias,
        online: h.records.last().online,
        data_points: h.records.len() as u64,
        cpu_history: h.records.map_values(
            |r: crate::db::HostStatRecordV| MetricPoint { timestamp: r.timestamp, value: r.cpu },
        ),
        memory_history: h.records.map_values(
            |r: crate::db::HostStatRecordV|
                MemoryPoint {
                    timestamp: r.timestamp,
                    value: percent_bp(r.memory_used, r.memory_total),
                    total: r.memory_total,
                    used: r.memory_used,
                },
        ),
        network_in_history: h.records.map_values(
            |r: crate::db::HostStatRecordV|
                NetworkPoint {
                    timestamp: r.timestamp,
                    value: r.network_in_speed,
                    total: r.network_in,
                },
        ),
        network_out_history: h.records.map_values(
            |r: crate::db::HostStatRecordV|
                NetworkPoint {
                    timestamp: r.timestamp,
                    value: r.network_out_speed,
                    total: r.network_out,
                },
        ),
        disks_history: mounts_of_recs(all_disk_recs(h.records)).map_values(
            |m: Seq<char>|
                MountSeriesV { mount_point: m, points: disk_points_of(all_disk_recs(h.records), m) },
        ),
    }
}

/// The reshaped response a whole range query yields: one slice per host with
/// records, in query order.
pub open spec fn history_of(series: Seq<crate::db::HostSeriesV>) -> Seq<HostHistoryV>
    decreases series.len(),
{
    if series.len() == 0 {
        Seq::empty()
    } else {
        history_of(series.drop_last()) + (if series.last().records.len() == 0 {
            Seq::empty()
        } else {
            seq![host_history_of(series.last())]
        })
    }
}

/// Group GC keeps a registry entry that is not group-instantiated or has
/// reported within the GC window.
pub open spec fn keep_cfg(c: HostConfigV, now: u64, gcw: u64) -> bool {
    c.gid.len() == 0 || c.latest_ts + gcw >= now
}

/// Group GC keeps a live entry that is not group-instantiated or has
/// reported within the GC window.
pub open spec fn keep_live(s: HostStatV, now: u64, gcw: u64) -> bool {
    s.gid.len() == 0 || s.latest_ts + gcw >= now
}


/// Group GC evicts by name: a group-instantiated entry whose last report has
/// aged past the GC window is absent from the filtered live map.
pub proof fn lemma_gc_absence(live: Seq<HostStatV>, now: u64, gcw: u64, name: Seq<char>)
    requires
        forall|i: int, j: int|
            0 <= i < j < live.len() ==> (#[trigger] live[i]).name != (#[trigger] live[j]).name,
        has_live(live, name),
        live[live_idx(live, name)].gid.len() > 0,
        live[live_idx(live, name)].latest_ts + gcw < now,
    ensures
        !has_live(live.filter(|s: HostStatV| keep_live(s, now, gcw)), name),
{
    let pred = |s: HostStatV| keep_live(s, now, gcw);
    let kept = live.filter(pred);
    let ix = live_idx(live, name);
    if has_live(kept, name) {
        let j = choose|j: int| 0 <= j < kept.len() && (#[trigger] kept[j]).name == name;
        crate::db::lemma_filter_membership(live, pred, j);
        let k = choose|k: int| 0 <= k < live.len() && live[k] == kept[j];
        live.lemma_filter_pred(pred, j);
        assert(keep_live(live[k], now, gcw));
        if k != ix {
            if k < ix {
                assert(live[k].name != live[ix].name);
            } else {
                assert(live[ix].name != live[k].name);
            }
        }
    }
}

/// The fixed, ordered list of recognised OS identifiers.
pub open spec fn os_candidate(i: int) -> Seq<char> {
    if i == 0 {
        "centos"@
    } else if i == 1 {
        "debian"@
    } else if i == 2 {
        "ubuntu"@
    } else if i == 3 {
        "arch"@
    } else if i == 4 {
        "windows"@
    } else if i == 5 {
        "macos"@
    } else if i == 6 {
        "pi"@
    } else if i == 7 {
        "android"@
    } else if i == 8 {
        "linux"@
    } else {
        "freebsd"@
    }
}

/// The first recognised OS identifier occurring in the folded OS string,
/// scanning candidates from `i` on.
pub open spec fn os_match_from(os_r: Seq<char>, i: int) -> Option<Seq<char>>
    decreases 10 - i,
{
    if i >= 10 || i < 0 {
        Option::None
    } else if crate::strutil::contains_seq(os_r, os_candidate(i)) {
        Option::Some(os_candidate(i))
    } else {
        os_match_from(os_r, i + 1)
    }
}

/// The lower-cased release-and-name string the OS label is inferred from.
pub open spec fn os_source(si: crate::types::SysInfoV) -> Seq<char> {
    crate::strutil::lower_of(si.os_release) + " "@ + crate::strutil::lower_of(si.os_name)
}

/// Append the inferred OS label once: entries already labelled, or without
/// system information, or with an unrecognised OS, stay as they are.
pub open spec fn with_os_label(s: HostStatV) -> HostStatV {
    if crate::strutil::contains_seq(s.labels, "os="@) {
        s
    } else {
        match s.sys_info {
            Option::None => s,
            Option::Some(si) => match os_match_from(os_source(si), 0) {
                Option::None => s,
                Option::Some(o) => HostStatV {
                    labels: if s.labels.len() == 0 {
                        "os="@ + o
                    } else {
                        s.labels + ";os="@ + o
                    },
                    ..s
                },
            },
        }
    }
}

/// Per-tick adjustment of one live entry: disabled entries pass through;
/// otherwise the online flags clear once the offline threshold has elapsed,
/// and the OS label is inferred.
pub open spec fn tick_adjust(s: HostStatV, now: u64, thr: u64) -> HostStatV {
    if s.disabled {
        s
    } else {
        let s1 = if s.latest_ts + thr < now {
            HostStatV { online4: false, online6: false, ..s }
        } else {
            s
        };
        with_os_label(s1)
    }
}

/// The live entry after one tick: additionally, when notifications are due
/// and the host is offline, it is disabled.
pub open spec fn tick_final(s: HostStatV, now: u64, thr: u64, gate: bool) -> HostStatV {
    let a = tick_adjust(s, now, thr);
    if !s.disabled && gate && a.notify && !(a.online4 || a.online6) {
        HostStatV { disabled: true, ..a }
    } else {
        a
    }
}

/// The notifications of one entry in one tick: when notifications are due
/// and notify is set, a heartbeat when online, a node-down when offline.
pub open spec fn tick_event(s: HostStatV, now: u64, thr: u64, gate: bool) -> Seq<NoticeV> {
    if s.disabled || !gate {
        Seq::empty()
    } else {
        let a = tick_adjust(s, now, thr);
        if !a.notify {
            Seq::empty()
        } else if a.online4 || a.online6 {
            seq![NoticeV { kind: EventKind::Custom, stat: a }]
        } else {
            seq![NoticeV { kind: EventKind::NodeDown, stat: tick_final(s, now, thr, gate) }]
        }
    }
}

/// The notifications of a whole tick, in live-map order.
pub open spec fn tick_events(list: Seq<HostStatV>, now: u64, thr: u64, gate: bool) -> Seq<NoticeV>
    decreases list.len(),
{
    if list.len() == 0 {
        Seq::empty()
    } else {
        tick_events(list.drop_last(), now, thr, gate) + tick_event(list.last(), now, thr, gate)
    }
}

/// Some live entry is eligible for notification.
pub open spec fn any_notify(list: Seq<HostStatV>) -> bool {
    exists|i: int| 0 <= i < list.len() && !(#[trigger] list[i]).disabled && list[i].notify
}

/// A tick never renames an entry and never moves its timestamps or group.
pub proof fn lemma_tick_keeps_identity(s: HostStatV, now: u64, thr: u64, gate: bool)
    ensures
        tick_final(s, now, thr, gate).name == s.name,
        tick_final(s, now, thr, gate).gid == s.gid,
        tick_final(s, now, thr, gate).latest_ts == s.latest_ts,
        tick_final(s, now, thr, gate).weight == s.weight,
        tick_final(s, now, thr, gate).pos == s.pos,
        tick_final(s, now, thr, gate).alias == s.alias,
{
}

/// The offline transition, per entry: past the threshold both online flags
/// are clear after the tick, and not before.
pub proof fn lemma_tick_offline(s: HostStatV, now: u64, thr: u64, gate: bool)
    requires
        !s.disabled,
    ensures
        s.latest_ts + thr < now ==> !tick_final(s, now, thr, gate).online4 && !tick_final(
            s,
            now,
            thr,
            gate,
        ).online6,
        s.latest_ts + thr >= now ==> tick_final(s, now, thr, gate).online4 == s.online4
            && tick_final(s, now, thr, gate).online6 == s.online6,
{
}

/// How `spec_report` resolves when the report's group is unknown.
proof fn lemma_step_group_not_found(
    reg0: Seq<HostConfigV>,
    groups: Seq<HostGroupV>,
    live0: Seq<HostStatV>,
    stat: HostStatV,
    thr: u64,
    lday: u32,
    lhour: u32,
    lmin: u32,
)
    requires
        ({
            let s0 = stage_alias(stat);
            s0.gid.len() > 0 && !(has_cfg(reg0, s0.name) && reg0[cfg_idx(reg0, s0.name)].gid
                == s0.gid) && !has_group(groups, s0.gid)
        }),
    ensures
        spec_report(reg0, groups, live0, stat, thr, lday, lhour, lmin) == (MgrStep {
            outcome: crate::types::ReportOutcome::GroupNotFound,
            registry: reg0,
            live: live0,
            merged: stage_alias(stat),
            node_up: false,
            counter_write: false,
        }),
{
    reveal(spec_report);
}

/// How `spec_report` resolves when the host is not in the registry.
proof fn lemma_step_unregistered(
    reg0: Seq<HostConfigV>,
    groups: Seq<HostGroupV>,
    live0: Seq<HostStatV>,
    stat: HostStatV,
    thr: u64,
    lday: u32,
    lhour: u32,
    lmin: u32,
)
    requires
        ({
            let s0 = stage_alias(stat);
            &&& !(s0.gid.len() > 0 && !(has_cfg(reg0, s0.name) && reg0[cfg_idx(reg0, s0.name)].gid
                == s0.gid) && !has_group(groups, s0.gid))
            &&& !has_cfg(group_resolve(reg0, groups, s0), s0.name)
        }),
    ensures
        spec_report(reg0, groups, live0, stat, thr, lday, lhour, lmin) == (MgrStep {
            outcome: crate::types::ReportOutcome::UnregisteredHost,
            registry: group_resolve(reg0, groups, stage_alias(stat)),
            live: live0,
            merged: stage_alias(stat),
            node_up: false,
            counter_write: false,
        }),
{
    reveal(spec_report);
}

/// How `spec_report` resolves when the registry disables the host.
proof fn lemma_step_disabled(
    reg0: Seq<HostConfigV>,
    groups: Seq<HostGroupV>,
    live0: Seq<HostStatV>,
    stat: HostStatV,
    thr: u64,
    lday: u32,
    lhour: u32,
    lmin: u32,
)
    requires
        ({
            let s0 = stage_alias(stat);
            let reg1 = group_resolve(reg0, groups, s0);
            &&& !(s0.gid.len() > 0 && !(has_cfg(reg0, s0.name) && reg0[cfg_idx(reg0, s0.name)].gid
                == s0.gid) && !has_group(groups, s0.gid))
            &&& has_cfg(reg1, s0.name)
            &&& reg1[cfg_idx(reg1, s0.name)].disabled
        }),
    ensures
        spec_report(reg0, groups, live0, stat, thr, lday, lhour, lmin) == (MgrStep {
            outcome: crate::types::ReportOutcome::DisabledHost,
            registry: group_resolve(reg0, groups, stage_alias(stat)),
            live: live0,
            merged: stage_alias(stat),
            node_up: false,
            counter_write: false,
        }),
{
    reveal(spec_report);
}

/// How `spec_report` resolves when the report is accepted: every later stage
/// spelled out over the merged entry.
proof fn lemma_step_accepted(
    reg0: Seq<HostConfigV>,
    groups: Seq<HostGroupV>,
    live0: Seq<HostStatV>,
    stat: HostStatV,
    thr: u64,
    lday: u32,
    lhour: u32,
    lmin: u32,
)
    requires
        ({
            let s0 = stage_alias(stat);
            let reg1 = group_resolve(reg0, groups, s0);
            &&& !(s0.gid.len() > 0 && !(has_cfg(reg0, s0.name) && reg0[cfg_idx(reg0, s0.name)].gid
                == s0.gid) && !has_group(groups, s0.gid))
            &&& has_cfg(reg1, s0.name)
            &&& !reg1[cfg_idx(reg1, s0.name)].disabled
        }),
    ensures
        ({
            let s0 = stage_alias(stat);
            let reg1 = group_resolve(reg0, groups, s0);
            let idx = cfg_idx(reg1, s0.name);
            let info = reg1[idx];
            let s1 = merge_with_cfg(s0, info);
            let reset = !s1.vnstat && reset_due(
                info.last_network_in,
                s1.network_in,
                lday,
                lhour,
                lmin,
                info.monthstart,
            );
            let reg2 = if reset {
                reg1.update(
                    idx,
                    HostConfigV {
                        last_network_in: s1.network_in,
                        last_network_out: s1.network_out,
                        ..info
                    },
                )
            } else {
                reg1
            };
            let s2 = if !s1.vnstat && !reset {
                HostStatV {
                    last_network_in: info.last_network_in,
                    last_network_out: info.last_network_out,
                    ..s1
                }
            } else {
                s1
            };
            let s3 = HostStatV { uptime_str: crate::strutil::spec_uptime_str(s2.uptime), ..s2 };
            let known = has_live(live0, s3.name);
            let prev_ix = live_idx(live0, s3.name);
            let s4 = if known && s3.ip_info is None {
                HostStatV { ip_info: live0[prev_ix].ip_info, ..s3 }
            } else {
                s3
            };
            let node_up = known && s4.notify && live0[prev_ix].latest_ts + thr < s4.latest_ts;
            spec_report(reg0, groups, live0, stat, thr, lday, lhour, lmin) == (MgrStep {
                outcome: crate::types::ReportOutcome::Accepted,
                registry: reg2,
                live: live_upsert(live0, s4),
                merged: s4,
                node_up,
                counter_write: reset,
            })
        }),
{
    reveal(spec_report);
}


/// The `i`-th recognised OS identifier.
fn os_candidate_str(i: usize) -> (s: &'static str)
    requires
        i < 10,
    ensures
        s@ == os_candidate(i as int),
{
    if i == 0 {
        "centos"
    } else if i == 1 {
        "debian"
    } else if i == 2 {
        "ubuntu"
    } else if i == 3 {
        "arch"
    } else if i == 4 {
        "windows"
    } else if i == 5 {
        "macos"
    } else if i == 6 {
        "pi"
    } else if i == 7 {
        "android"
    } else if i == 8 {
        "linux"
    } else {
        "freebsd"
    }
}

/// Infer the OS label of one live entry and append it to the labels, once.
fn apply_os_label_exec(stat: HostStat) -> (r: HostStat)
    ensures
        r@ == with_os_label(stat@),
{
    let mut stat = stat;
    let ghost sv = stat@;
    if crate::strutil::str_contains_sub(stat.labels.as_str(), "os=") {
        return stat;
    }
    let (os_name, os_release) = match &stat.sys_info {
        None => {
            return stat;
        },
        Some(si) => (si.os_name.clone(), si.os_release.clone()),
    };
    let mut os_r = crate::strutil::lowercase(os_release.as_str());
    let lname = crate::strutil::lowercase(os_name.as_str());
    os_r.append(" ");
    os_r.append(lname.as_str());
    proof {
        assert(os_r@ == os_source(stat@.sys_info->0));
    }
    let mut found: Option<&'static str> = None;
    let mut i: usize = 0;
    while i < 10
        invariant
            i <= 10,
            match found {
                Some(o) => os_match_from(os_r@, 0) == Option::Some(o@),
                None => os_match_from(os_r@, 0) == os_match_from(os_r@, i as int),
            },
        decreases 10 - i,
    {
        if found.is_none() {
            let cand = os_candidate_str(i);
            if crate::strutil::str_contains_sub(os_r.as_str(), cand) {
                found = Some(cand);
            }
        }
        i = i + 1;
    }
    match found {
        None => {
            proof {
                assert(os_match_from(os_r@, 10) is None);
            }
            stat
        },
        Some(o) => {
            let mut labels = stat.labels;
            if labels.as_str().unicode_len() == 0 {
                let mut nl = String::from_str("os=");
                nl.append(o);
                labels = nl;
            } else {
                labels.append(";os=");
                labels.append(o);
            }
            stat.labels = labels;
            proof {
                assert(stat@.labels =~= with_os_label(sv).labels);
                assert(stat@ == with_os_label(sv));
            }
            stat
        },
    }
}

/// Adjust one live entry for the tick and compute its notification.
fn tick_exec(s: &HostStat, now: u64, thr: u64, gate: bool) -> (r: (HostStat, Option<Notice>))
    ensures
        r.0@ == tick_final(s@, now, thr, gate),
        match r.1 {
            Some(n) => tick_event(s@, now, thr, gate) == seq![n@],
            None => tick_event(s@, now, thr, gate) == Seq::<NoticeV>::empty(),
        },
{
    if s.disabled {
        return (s.clone(), None);
    }
    let mut a = s.clone();
    if now > thr && a.latest_ts < now - thr {
        a.online4 = false;
        a.online6 = false;
    }
    let a = apply_os_label_exec(a);
    proof {
        assert(a@ == tick_adjust(s@, now, thr));
    }
    if gate && a.notify {
        if a.online4 || a.online6 {
            let payload = a.clone();
            (a, Some(Notice { kind: EventKind::Custom, stat: payload }))
        } else {
            let mut a = a;
            a.disabled = true;
            let payload = a.clone();
            proof {
                assert(a@ == tick_final(s@, now, thr, gate));
            }
            (a, Some(Notice { kind: EventKind::NodeDown, stat: payload }))
        }
    } else {
        (a, None)
    }
}


/// All disk records of one host's query records, in record-major order.
fn concat_disk_recs(records: &Vec<crate::db::HostStatRecord>) -> (v: Vec<crate::db::DiskRecord>)
    ensures
        v.deep_view() == all_disk_recs(records.deep_view()),
{
    let mut v: Vec<crate::db::DiskRecord> = Vec::new();
    let n = records.len();
    let mut i: usize = 0;
    while i < n
        invariant
            n == records@.len(),
            i <= n,
            v.deep_view() == all_disk_recs(records.deep_view().take(i as int)),
        decreases n - i,
    {
        let ghost pre = records.deep_view().take(i as int);
        let m = records[i].disks.len();
        let mut j: usize = 0;
        while j < m
            invariant
                i < n,
                n == records@.len(),
                m == records@[i as int].disks@.len(),
                j <= m,
                v.deep_view() == all_disk_recs(records.deep_view().take(i as int))
                    + records.deep_view()[i as int].disks.take(j as int),
            decreases m - j,
        {
            let ghost prev = v.deep_view();
            let d = &records[i].disks[j];
            let rec = crate::db::DiskRecord {
                timestamp: d.timestamp,
                mount_point: d.mount_point.clone(),
                total: d.total,
                used: d.used,
            };
            proof {
                assert(rec@ == records.deep_view()[i as int].disks[j as int]);
            }
            v.push(rec);
            proof {
                assert(v.deep_view() =~= prev.push(records.deep_view()[i as int].disks[j as int]));
                assert(v.deep_view() =~= all_disk_recs(records.deep_view().take(i as int))
                    + records.deep_view()[i as int].disks.take(j as int + 1));
            }
            j = j + 1;
        }
        proof {
            assert(records.deep_view().take(i as int + 1).drop_last() =~= pre);
            assert(records.deep_view().take(i as int + 1).last() == records.deep_view()[i as int]);
            assert(records.deep_view()[i as int].disks.take(m as int) =~= records.deep_view()[i as int].disks);
            assert(v.deep_view() =~= all_disk_recs(records.deep_view().take(i as int + 1)));
        }
        i = i + 1;
    }
    proof {
        assert(records.deep_view().take(n as int) =~= records.deep_view());
    }
    v
}

/// The distinct mount points of a disk record run, in first-appearance
/// order.
fn distinct_rec_mounts(rows: &Vec<crate::db::DiskRecord>) -> (r: Vec<String>)
    ensures
        r@.len() == mounts_of_recs(rows.deep_view()).len(),
        forall|j: int|
            0 <= j < r@.len() ==> (#[trigger] r@[j])@ == mounts_of_recs(rows.deep_view())[j],
{
    let mut out: Vec<String> = Vec::new();
    let n = rows.len();
    let mut i: usize = 0;
    while i < n
        invariant
            n == rows@.len(),
            i <= n,
            out@.len() == mounts_of_recs(rows.deep_view().take(i as int)).len(),
            forall|j: int|
                0 <= j < out@.len() ==> (#[trigger] out@[j])@ == mounts_of_recs(
                    rows.deep_view().take(i as int),
                )[j],
        decreases n - i,
    {
        let ghost pre = rows.deep_view().take(i as int);
        let mut seen = false;
        let m = out.len();
        let mut j: usize = 0;
        while j < m
            invariant
                m == out@.len(),
                j <= m,
                i < n,
                n == rows@.len(),
                seen ==> exists|k: int|
                    0 <= k < out@.len() && (#[trigger] out@[k])@ == rows.deep_view()[i as int].mount_point,
                !seen ==> forall|k: int|
                    0 <= k < j ==> (#[trigger] out@[k])@ != rows.deep_view()[i as int].mount_point,
            decreases m - j,
        {
            if str_eq(out[j].as_str(), rows[i].mount_point.as_str()) {
                seen = true;
                proof {
                    assert(out@[j as int]@ == rows.deep_view()[i as int].mount_point);
                }
            }
            j = j + 1;
        }
        proof {
            let mprev = mounts_of_recs(pre);
            let cur = rows.deep_view()[i as int].mount_point;
            if seen {
                let k = choose|k: int| 0 <= k < out@.len() && (#[trigger] out@[k])@ == cur;
                assert(mprev[k] == cur);
                assert(mprev.contains(cur));
            } else {
                if mprev.contains(cur) {
                    let k = choose|k: int| 0 <= k < mprev.len() && mprev[k] == cur;
                    assert(0 <= k < out@.len());
                    assert(out@[k]@ == mprev[k]);
                    assert(false);
                }
            }
        }
        if !seen {
            out.push(rows[i].mount_point.clone());
        }
        proof {
            assert(rows.deep_view().take(i as int + 1).drop_last() =~= pre);
            assert(rows.deep_view().take(i as int + 1).last() == rows.deep_view()[i as int]);
        }
        i = i + 1;
    }
    proof {
        assert(rows.deep_view().take(n as int) =~= rows.deep_view());
    }
    out
}

/// One mount's points over a disk record run.
fn disk_points_exec(rows: &Vec<crate::db::DiskRecord>, m: &String) -> (v: Vec<DiskPoint>)
    ensures
        v@ == disk_points_of(rows.deep_view(), m@),
{
    let ghost pred = |d: crate::db::DiskRecordV| d.mount_point == m@;
    let ghost f = |d: crate::db::DiskRecordV|
        DiskPoint {
            timestamp: d.timestamp,
            value: percent_bp(d.used, d.total),
            total: d.total,
            used: d.used,
        };
    let mut v: Vec<DiskPoint> = Vec::new();
    let n = rows.len();
    let mut i: usize = 0;
    while i < n
        invariant
            n == rows@.len(),
            i <= n,
            pred == (|d: crate::db::DiskRecordV| d.mount_point == m@),
            f == (|d: crate::db::DiskRecordV|
                DiskPoint {
                    timestamp: d.timestamp,
                    value: percent_bp(d.used, d.total),
                    total: d.total,
                    used: d.used,
                }),
            v@ == rows.deep_view().take(i as int).filter(pred).map_values(f),
        decreases n - i,
    {
        let ghost pre = rows.deep_view().take(i as int);
        if str_eq(rows[i].mount_point.as_str(), m.as_str()) {
            let p = DiskPoint {
                timestamp: rows[i].timestamp,
                value: percent_bp_exec(rows[i].used, rows[i].total),
                total: rows[i].total,
                used: rows[i].used,
            };
            proof {
                assert(p == f(rows.deep_view()[i as int]));
            }
            v.push(p);
        }
        proof {
            reveal(Seq::filter);
            assert(rows.deep_view().take(i as int + 1).drop_last() =~= pre);
            assert(rows.deep_view().take(i as int + 1).last() == rows.deep_view()[i as int]);
            let row = rows.deep_view()[i as int];
            if pred(row) {
                assert(rows.deep_view().take(i as int + 1).filter(pred) =~= pre.filter(pred).push(
                    row,
                ));
                assert(rows.deep_view().take(i as int + 1).filter(pred).map_values(f)
                    =~= pre.filter(pred).map_values(f).push(f(row)));
            }
            assert(v@ =~= rows.deep_view().take(i as int + 1).filter(pred).map_values(f));
        }
        i = i + 1;
    }
    proof {
        assert(rows.deep_view().take(n as int) =~= rows.deep_view());
    }
    v
}

/// Reshape one host's query slice into its per-metric history.
#[verifier::rlimit(100)]
fn build_history(h: &crate::db::HostSeries) -> (r: HostHistory)
    requires
        h.records@.len() > 0,
    ensures
        r.deep_view() == host_history_of(h.deep_view()),
{
    let n = h.records.len();
    let mut cpu: Vec<MetricPoint> = Vec::new();
    let mut mem: Vec<MemoryPoint> = Vec::new();
    let mut nin: Vec<NetworkPoint> = Vec::new();
    let mut nout: Vec<NetworkPoint> = Vec::new();
    let ghost recs = h.records.deep_view();
    let mut i: usize = 0;
    while i < n
        invariant
            n == h.records@.len(),
            recs == h.records.deep_view(),
            i <= n,
            cpu@.len() == i,
            mem@.len() == i,
            nin@.len() == i,
            nout@.len() == i,
            forall|j: int|
                0 <= j < i ==> #[trigger] cpu@[j] == (MetricPoint {
                    timestamp: recs[j].timestamp,
                    value: recs[j].cpu,
                }),
            forall|j: int|
                0 <= j < i ==> #[trigger] mem@[j] == (MemoryPoint {
                    timestamp: recs[j].timestamp,
                    value: percent_bp(recs[j].memory_used, recs[j].memory_total),
                    total: recs[j].memory_total,
                    used: recs[j].memory_used,
                }),
            forall|j: int|
                0 <= j < i ==> #[trigger] nin@[j] == (NetworkPoint {
                    timestamp: recs[j].timestamp,
                    value: recs[j].network_in_speed,
                    total: recs[j].network_in,
                }),
            forall|j: int|
                0 <= j < i ==> #[trigger] nout@[j] == (NetworkPoint {
                    timestamp: recs[j].timestamp,
                    value: recs[j].network_out_speed,
                    total: recs[j].network_out,
                }),
        decreases n - i,
    {
        let rec = &h.records[i];
        cpu.push(MetricPoint { timestamp: rec.timestamp, value: rec.cpu });
        mem.push(
            MemoryPoint {
                timestamp: rec.timestamp,
                value: percent_bp_exec(rec.memory_used, rec.memory_total),
                total: rec.memory_total,
                used: rec.memory_used,
            },
        );
        nin.push(
            NetworkPoint {
                timestamp: rec.timestamp,
                value: rec.network_in_speed,
                total: rec.network_in,
            },
        );
        nout.push(
            NetworkPoint {
                timestamp: rec.timestamp,
                value: rec.network_out_speed,
                total: rec.network_out,
            },
        );
        i = i + 1;
    }
    let all_disks = concat_disk_recs(&h.records);
    let mounts = distinct_rec_mounts(&all_disks);
    let nm = mounts.len();
    let mut disks_history: Vec<MountSeries> = Vec::new();
    let ghost mlist = mounts_of_recs(all_disk_recs(recs));
    let mut k: usize = 0;
    while k < nm
        invariant
            nm == mounts@.len(),
            k <= nm,
            recs == h.records.deep_view(),
            all_disks.deep_view() == all_disk_recs(recs),
            nm == mlist.len(),
            mlist == mounts_of_recs(all_disk_recs(recs)),
            forall|j: int| 0 <= j < nm ==> (#[trigger] mounts@[j])@ == mlist[j],
            disks_history.deep_view().len() == k,
            forall|j: int|
                0 <= j < k ==> #[trigger] disks_history.deep_view()[j] == (MountSeriesV {
                    mount_point: mlist[j],
                    points: disk_points_of(all_disk_recs(recs), mlist[j]),
                }),
        decreases nm - k,
    {
        let pts = disk_points_exec(&all_disks, &mounts[k]);
        let ms = MountSeries { mount_point: mounts[k].clone(), points: pts };
        proof {
            assert(ms@ == (MountSeriesV {
                mount_point: mlist[k as int],
                points: disk_points_of(all_disk_recs(recs), mlist[k as int]),
            }));
        }
        let ghost pre_dh = disks_history.deep_view();
        let ghost msv = ms@;
        disks_history.push(ms);
        proof {
            assert(disks_history.deep_view() =~= pre_dh.push(msv));
        }
        k = k + 1;
    }
    let last = &h.records[n - 1];
    let r = HostHistory {
        name: h.name.clone(),
        alias: last.alias.clone(),
        online: last.online,
        data_points: n as u64,
        cpu_history: cpu,
        memory_history: mem,
        network_in_history: nin,
        network_out_history: nout,
        disks_history,
    };
    proof {
        assert(recs.last() == recs[n - 1]);
        assert(r.deep_view().cpu_history =~= host_history_of(h.deep_view()).cpu_history);
        assert(r.deep_view().memory_history =~= host_history_of(h.deep_view()).memory_history);
        assert(r.deep_view().network_in_history =~= host_history_of(
            h.deep_view(),
        ).network_in_history);
        assert(r.deep_view().network_out_history =~= host_history_of(
            h.deep_view(),
        ).network_out_history);
        assert(r.deep_view().disks_history =~= host_history_of(h.deep_view()).disks_history);
        assert(r.deep_view() == host_history_of(h.deep_view()));
    }
    r
}

/// Find the registry entry carrying `name`.
fn find_cfg_pos(cfgs: &Vec<HostConfig>, name: &str) -> (r: Option<usize>)
    requires
        forall|i: int, j: int|
            0 <= i < j < cfgs.deep_view().len() ==> (#[trigger] cfgs.deep_view()[i]).name != (
            #[trigger] cfgs.deep_view()[j]).name,
    ensures
        match r {
            Some(p) => p < cfgs.deep_view().len() && cfgs.deep_view()[p as int].name == name@
                && has_cfg(cfgs.deep_view(), name@) && cfg_idx(cfgs.deep_view(), name@) == p,
            None => !has_cfg(cfgs.deep_view(), name@),
        },
{
    let n = cfgs.len();
    let mut i: usize = 0;
    while i < n
        invariant
            n == cfgs.deep_view().len(),
            i <= n,
            forall|a: int, b: int|
                0 <= a < b < cfgs.deep_view().len() ==> (#[trigger] cfgs.deep_view()[a]).name != (
                #[trigger] cfgs.deep_view()[b]).name,
            forall|j: int| 0 <= j < i ==> (#[trigger] cfgs.deep_view()[j]).name != name@,
        decreases n - i,
    {
        if str_eq(cfgs[i].name.as_str(), name) {
            proof {
                assert(cfgs.deep_view()[i as int].name == name@);
                assert(has_cfg(cfgs.deep_view(), name@));
                let k = cfg_idx(cfgs.deep_view(), name@);
                if k != i {
                    assert(cfgs.deep_view()[k].name == name@);
                }
            }
            return Some(i);
        }
        i = i + 1;
    }
    None
}

/// Find the group template carrying `gid`.
fn find_group_pos(gs: &Vec<HostGroup>, gid: &str) -> (r: Option<usize>)
    requires
        forall|i: int, j: int|
            0 <= i < j < gs.deep_view().len() ==> (#[trigger] gs.deep_view()[i]).gid != (
            #[trigger] gs.deep_view()[j]).gid,
    ensures
        match r {
            Some(p) => p < gs.deep_view().len() && gs.deep_view()[p as int].gid == gid@
                && has_group(gs.deep_view(), gid@) && group_idx(gs.deep_view(), gid@) == p,
            None => !has_group(gs.deep_view(), gid@),
        },
{
    let n = gs.len();
    let mut i: usize = 0;
    while i < n
        invariant
            n == gs.deep_view().len(),
            i <= n,
            forall|a: int, b: int|
                0 <= a < b < gs.deep_view().len() ==> (#[trigger] gs.deep_view()[a]).gid != (
                #[trigger] gs.deep_view()[b]).gid,
            forall|j: int| 0 <= j < i ==> (#[trigger] gs.deep_view()[j]).gid != gid@,
        decreases n - i,
    {
        if str_eq(gs[i].gid.as_str(), gid) {
            proof {
                assert(gs.deep_view()[i as int].gid == gid@);
                assert(has_group(gs.deep_view(), gid@));
                let k = group_idx(gs.deep_view(), gid@);
                if k != i {
                    assert(gs.deep_view()[k].gid == gid@);
                }
            }
            return Some(i);
        }
        i = i + 1;
    }
    None
}

/// Find the live entry carrying `name`.
fn find_live_pos(ls: &Vec<HostStat>, name: &str) -> (r: Option<usize>)
    requires
        forall|i: int, j: int|
            0 <= i < j < ls.deep_view().len() ==> (#[trigger] ls.deep_view()[i]).name != (
            #[trigger] ls.deep_view()[j]).name,
    ensures
        match r {
            Some(p) => p < ls.deep_view().len() && ls.deep_view()[p as int].name == name@
                && has_live(ls.deep_view(), name@) && live_idx(ls.deep_view(), name@) == p,
            None => !has_live(ls.deep_view(), name@),
        },
{
    let n = ls.len();
    let mut i: usize = 0;
    while i < n
        invariant
            n == ls.deep_view().len(),
            i <= n,
            forall|a: int, b: int|
                0 <= a < b < ls.deep_view().len() ==> (#[trigger] ls.deep_view()[a]).name != (
                #[trigger] ls.deep_view()[b]).name,
            forall|j: int| 0 <= j < i ==> (#[trigger] ls.deep_view()[j]).name != name@,
        decreases n - i,
    {
        if str_eq(ls[i].name.as_str(), name) {
            proof {
                assert(ls.deep_view()[i as int].name == name@);
                assert(has_live(ls.deep_view(), name@));
                let k = live_idx(ls.deep_view(), name@);
                if k != i {
                    assert(ls.deep_view()[k].name == name@);
                }
            }
            return Some(i);
        }
        i = i + 1;
    }
    None
}

impl StatsMgr {
    /// A fresh engine over the given tunables, registry and group templates,
    /// with an empty live map, an empty store and an empty snapshot.
    pub fn new(tunables: Tunables, hosts_map: Vec<HostConfig>, groups: Vec<HostGroup>) -> (res:
        StatsMgr)
        requires
            forall|i: int, j: int|
                0 <= i < j < hosts_map.deep_view().len() ==> (
                #[trigger] hosts_map.deep_view()[i]).name != (
                #[trigger] hosts_map.deep_view()[j]).name,
            forall|i: int, j: int|
                0 <= i < j < groups.deep_view().len() ==> (#[trigger] groups.deep_view()[i]).gid
                    != (#[trigger] groups.deep_view()[j]).gid,
        ensures
            mgr_wf(&res),
            res.tunables == tunables,
            res.hosts_map.deep_view() == hosts_map.deep_view(),
            res.groups.deep_view() == groups.deep_view(),
            res.stat_map.deep_view() == Seq::<HostStatV>::empty(),
            res.db@.hosts.len() == 0,
            res.db@.stats.len() == 0,
            res.db@.disk_stats.len() == 0,
            res.db@.agg_stats.len() == 0,
            res.db@.agg_disk_stats.len() == 0,
            res.db@.last_network.len() == 0,
            res.resp@.updated == 0,
            res.resp@.servers.len() == 0,
            res.latest_notify_ts == 0,
            res.latest_group_gc == 0,
    {
        let res = StatsMgr {
            tunables,
            hosts_map,
            groups,
            stat_map: Vec::new(),
            db: Database::new(),
            resp: StatsResp { updated: 0, servers: Vec::new() },
            latest_notify_ts: 0,
            latest_group_gc: 0,
        };
        proof {
            assert(res.stat_map.deep_view() =~= Seq::<HostStatV>::empty());
        }
        res
    }

    /// Load the stored counter anchors into the registry, as the original did
    /// at startup, so that anchors survive a restart.
    pub fn init(&mut self)
        requires
            mgr_wf(old(self)),
        ensures
            mgr_wf(final(self)),
            final(self).hosts_map.deep_view() == apply_last_net(
                old(self).hosts_map.deep_view(),
                last_net_join(old(self).db@.last_network, old(self).db@.hosts),
            ),
            final(self).groups == old(self).groups,
            final(self).stat_map == old(self).stat_map,
            final(self).db == old(self).db,
            final(self).resp == old(self).resp,
            final(self).tunables == old(self).tunables,
            final(self).latest_notify_ts == old(self).latest_notify_ts,
            final(self).latest_group_gc == old(self).latest_group_gc,
    {
        let rows = self.db.get_last_network_data();
        let ghost join = last_net_join(self.db@.last_network, self.db@.hosts);
        let n = rows.len();
        let mut i: usize = 0;
        while i < n
            invariant
                n == rows@.len(),
                i <= n,
                n == join.len(),
                forall|k: int|
                    0 <= k < n ==> {
                        let e = join[k];
                        (#[trigger] rows@[k]).0@ == e.0 && rows@[k].1 == e.1 && rows@[k].2 == e.2
                    },
                mgr_wf(self),
                self.hosts_map.deep_view() == apply_last_net(
                    old(self).hosts_map.deep_view(),
                    join.take(i as int),
                ),
                self.groups == old(self).groups,
                self.stat_map == old(self).stat_map,
                self.db == old(self).db,
                self.resp == old(self).resp,
                self.tunables == old(self).tunables,
                self.latest_notify_ts == old(self).latest_notify_ts,
                self.latest_group_gc == old(self).latest_group_gc,
            decreases n - i,
        {
            let ghost pre = self.hosts_map.deep_view();
            let li = rows[i].1;
            let lo = rows[i].2;
            let found = find_cfg_pos(&self.hosts_map, rows[i].0.as_str());
            match found {
                Some(p) => {
                    let entry = HostConfig {
                        last_network_in: li,
                        last_network_out: lo,
                        ..self.hosts_map[p].clone()
                    };
                    self.hosts_map[p] = entry;
                    proof {
                        assert(self.hosts_map.deep_view() =~= apply_last_one(
                            pre,
                            join[i as int].0,
                            li,
                            lo,
                        ));
                        assert forall|a: int, b: int|
                            0 <= a < b < self.hosts_map.deep_view().len() implies (
                        #[trigger] self.hosts_map.deep_view()[a]).name != (
                        #[trigger] self.hosts_map.deep_view()[b]).name by {
                            assert(pre[a].name != pre[b].name);
                        }
                    }
                },
                None => {
                    proof {
                        assert(self.hosts_map.deep_view() =~= apply_last_one(
                            pre,
                            join[i as int].0,
                            li,
                            lo,
                        ));
                    }
                },
            }
            proof {
                assert(join.take(i as int + 1).drop_last() =~= join.take(i as int));
                assert(join.take(i as int + 1).last() == join[i as int]);
            }
            i = i + 1;
        }
        proof {
            assert(join.take(n as int) =~= join);
        }
    }


    /// Field backfill from the registry entry onto a report.
    fn merge_exec(stat: HostStat, info: &HostConfig) -> (r: HostStat)
        ensures
            r@ == merge_with_cfg(stat@, info@),
    {
        let mut stat = stat;
        if stat.location.as_str().unicode_len() == 0 {
            stat.location = info.location.clone();
        }
        if stat.host_type.as_str().unicode_len() == 0 {
            stat.host_type = info.host_type.clone();
        }
        stat.notify = info.notify && stat.notify;
        stat.pos = info.pos;
        stat.disabled = info.disabled;
        stat.weight = if info.weight > u64::MAX - stat.weight {
            u64::MAX
        } else {
            stat.weight + info.weight
        };
        stat.labels = info.labels.clone();
        if info.alias.as_str().unicode_len() > 0 {
            stat.alias = info.alias.clone();
        }
        stat
    }

    /// Group resolution: instantiate or refresh the registry entry of a
    /// report that arrives under a group id; `false` means the group is
    /// unknown and the report is dropped.
    fn group_stage(&mut self, stat: &HostStat) -> (ok: bool)
        requires
            mgr_wf(old(self)),
        ensures
            mgr_wf(final(self)),
            final(self).groups == old(self).groups,
            final(self).stat_map == old(self).stat_map,
            final(self).db == old(self).db,
            final(self).resp == old(self).resp,
            final(self).tunables == old(self).tunables,
            final(self).latest_notify_ts == old(self).latest_notify_ts,
            final(self).latest_group_gc == old(self).latest_group_gc,
            ok == !(stat@.gid.len() > 0 && !(has_cfg(old(self).hosts_map.deep_view(), stat@.name)
                && old(self).hosts_map.deep_view()[cfg_idx(
                old(self).hosts_map.deep_view(),
                stat@.name,
            )].gid == stat@.gid) && !has_group(old(self).groups.deep_view(), stat@.gid)),
            ok ==> final(self).hosts_map.deep_view() == group_resolve(
                old(self).hosts_map.deep_view(),
                old(self).groups.deep_view(),
                stat@,
            ),
            !ok ==> final(self).hosts_map == old(self).hosts_map,
    {
        if stat.gid.as_str().unicode_len() == 0 {
            return true;
        }
        let cpos = find_cfg_pos(&self.hosts_map, stat.name.as_str());
        let needs = match cpos {
            None => true,
            Some(p) => !str_eq(self.hosts_map[p].gid.as_str(), stat.gid.as_str()),
        };
        if !needs {
            return true;
        }
        match find_group_pos(&self.groups, stat.gid.as_str()) {
            None => false,
            Some(gp) => {
                let mut inst = self.groups[gp].inst_host(stat.name.as_str(), stat.latest_ts);
                match cpos {
                    Some(p) => {
                        inst.last_network_in = self.hosts_map[p].last_network_in;
                        inst.last_network_out = self.hosts_map[p].last_network_out;
                        let ghost pre = self.hosts_map.deep_view();
                        self.hosts_map[p] = inst;
                        proof {
                            assert(self.hosts_map.deep_view() =~= group_resolve(
                                pre,
                                self.groups.deep_view(),
                                stat@,
                            ));
                            assert forall|a: int, b: int|
                                0 <= a < b < self.hosts_map.deep_view().len() implies (
                            #[trigger] self.hosts_map.deep_view()[a]).name != (
                            #[trigger] self.hosts_map.deep_view()[b]).name by {
                                assert(pre[a].name != pre[b].name);
                            }
                        }
                    },
                    None => {
                        let ghost pre = self.hosts_map.deep_view();
                        self.hosts_map.push(inst);
                        proof {
                            assert(self.hosts_map.deep_view() =~= group_resolve(
                                pre,
                                self.groups.deep_view(),
                                stat@,
                            ));
                            assert forall|a: int, b: int|
                                0 <= a < b < self.hosts_map.deep_view().len() implies (
                            #[trigger] self.hosts_map.deep_view()[a]).name != (
                            #[trigger] self.hosts_map.deep_view()[b]).name by {
                                if b < pre.len() {
                                    assert(pre[a].name != pre[b].name);
                                } else {
                                    assert(pre[a].name != stat@.name);
                                }
                            }
                        }
                    },
                }
                true
            },
        }
    }

    /// Counter-reset handling: either rewrite the stored anchor (in the
    /// registry and in the store) to the report's raw counters, or overwrite
    /// the report's last-network fields with the stored anchor.
    fn counters_stage(&mut self, stat: HostStat, p: usize, now: u64, lday: u32, lhour: u32, lmin:
        u32) -> (res: (HostStat, bool))
        requires
            mgr_wf(old(self)),
            old(self).db@.hosts.len() < u64::MAX,
            p < old(self).hosts_map.deep_view().len(),
        ensures
            mgr_wf(final(self)),
            final(self).groups == old(self).groups,
            final(self).stat_map == old(self).stat_map,
            final(self).resp == old(self).resp,
            final(self).tunables == old(self).tunables,
            final(self).latest_notify_ts == old(self).latest_notify_ts,
            final(self).latest_group_gc == old(self).latest_group_gc,
            final(self).db@.stats == old(self).db@.stats,
            final(self).db@.disk_stats == old(self).db@.disk_stats,
            final(self).db@.agg_stats == old(self).db@.agg_stats,
            final(self).db@.agg_disk_stats == old(self).db@.agg_disk_stats,
            ({
                let info = old(self).hosts_map.deep_view()[p as int];
                let reset = !stat@.vnstat && reset_due(
                    info.last_network_in,
                    stat@.network_in,
                    lday,
                    lhour,
                    lmin,
                    info.monthstart,
                );
                &&& res.1 == reset
                &&& res.0@ == (if !stat@.vnstat && !reset {
                    HostStatV {
                        last_network_in: info.last_network_in,
                        last_network_out: info.last_network_out,
                        ..stat@
                    }
                } else {
                    stat@
                })
                &&& final(self).hosts_map.deep_view() == (if reset {
                    old(self).hosts_map.deep_view().update(
                        p as int,
                        HostConfigV {
                            last_network_in: stat@.network_in,
                            last_network_out: stat@.network_out,
                            ..info
                        },
                    )
                } else {
                    old(self).hosts_map.deep_view()
                })
                &&& final(self).db@.hosts == (if reset {
                    crate::db::hosts_after_ensure(old(self).db@.hosts, stat@.name, stat@.alias)
                } else {
                    old(self).db@.hosts
                })
                &&& final(self).db@.last_network == (if reset {
                    crate::db::anchor_upsert(
                        old(self).db@.last_network,
                        crate::db::ensured_id(old(self).db@.hosts, stat@.name),
                        stat@.network_in,
                        stat@.network_out,
                        now,
                    )
                } else {
                    old(self).db@.last_network
                })
            }),
    {
        let mut stat = stat;
        if stat.vnstat {
            return (stat, false);
        }
        let anchor_in = self.hosts_map[p].last_network_in;
        let anchor_out = self.hosts_map[p].last_network_out;
        let reset = anchor_in == 0 || (stat.network_in != 0 && anchor_in > stat.network_in) || (lday
            == self.hosts_map[p].monthstart && lhour == 0 && lmin < 5);
        if reset {
            let entry = HostConfig {
                last_network_in: stat.network_in,
                last_network_out: stat.network_out,
                ..self.hosts_map[p].clone()
            };
            let ghost pre = self.hosts_map.deep_view();
            self.hosts_map[p] = entry;
            proof {
                assert forall|a: int, b: int|
                    0 <= a < b < self.hosts_map.deep_view().len() implies (
                #[trigger] self.hosts_map.deep_view()[a]).name != (
                #[trigger] self.hosts_map.deep_view()[b]).name by {
                    assert(pre[a].name != pre[b].name);
                }
                assert(self.hosts_map.deep_view() =~= pre.update(
                    p as int,
                    HostConfigV {
                        last_network_in: stat@.network_in,
                        last_network_out: stat@.network_out,
                        ..pre[p as int]
                    },
                ));
            }
            // the store creates host rows lazily; make sure the row exists so
            // the anchor write below lands durably on the host's first report
            let _ = self.db.ensure_host_exists(stat.name.as_str(), stat.alias.as_str());
            proof {
                crate::db::lemma_ensure_has_host(old(self).db@.hosts, stat@.name, stat@.alias);
                crate::db::lemma_ensure_idempotent(old(self).db@.hosts, stat@.name, stat@.alias);
            }
            let r = self.db.update_last_network(
                stat.name.as_str(),
                stat.network_in,
                stat.network_out,
                now,
            );
            proof {
                assert(r is Ok);
                assert(self.db@.last_network == crate::db::anchor_upsert(
                    old(self).db@.last_network,
                    crate::db::ensured_id(old(self).db@.hosts, stat@.name),
                    stat@.network_in,
                    stat@.network_out,
                    now,
                ));
            }
            (stat, true)
        } else {
            stat.last_network_in = anchor_in;
            stat.last_network_out = anchor_out;
            (stat, false)
        }
    }

    /// Sticky enrichment and transition detection: carry forward the
    /// previous entry's geolocation when the report omits it, and decide
    /// whether the host just came back after an offline gap.
    fn sticky_stage(&self, stat: HostStat) -> (res: (HostStat, bool))
        requires
            mgr_wf(self),
        ensures
            ({
                let live0 = self.stat_map.deep_view();
                let known = has_live(live0, stat@.name);
                let prev_ix = live_idx(live0, stat@.name);
                &&& res.0@ == (if known && stat@.ip_info is None {
                    HostStatV { ip_info: live0[prev_ix].ip_info, ..stat@ }
                } else {
                    stat@
                })
                &&& res.1 == (known && stat@.notify && live0[prev_ix].latest_ts
                    + self.tunables.offline_threshold < stat@.latest_ts)
            }),
    {
        let mut stat = stat;
        let thr = self.tunables.offline_threshold;
        let lpos = find_live_pos(&self.stat_map, stat.name.as_str());
        let mut node_up = false;
        match lpos {
            Some(lp) => {
                if stat.ip_info.is_none() {
                    stat.ip_info = match &self.stat_map[lp].ip_info {
                        Some(x) => Some(x.clone()),
                        None => None,
                    };
                }
                let prev_ts = self.stat_map[lp].latest_ts;
                if stat.notify && stat.latest_ts > thr && prev_ts < stat.latest_ts - thr {
                    node_up = true;
                }
                (stat, node_up)
            },
            None => (stat, false),
        }
    }

    /// Publish a merged report to the live map, replacing the entry with its
    /// name or appending it on first sight.
    fn live_publish(&mut self, stat: &HostStat)
        requires
            mgr_wf(old(self)),
        ensures
            mgr_wf(final(self)),
            final(self).hosts_map == old(self).hosts_map,
            final(self).groups == old(self).groups,
            final(self).db == old(self).db,
            final(self).resp == old(self).resp,
            final(self).tunables == old(self).tunables,
            final(self).latest_notify_ts == old(self).latest_notify_ts,
            final(self).latest_group_gc == old(self).latest_group_gc,
            final(self).stat_map.deep_view() == live_upsert(old(self).stat_map.deep_view(), stat@),
    {
        let livecopy = stat.clone();
        let lpos = find_live_pos(&self.stat_map, stat.name.as_str());
        match lpos {
            Some(lp) => {
                let ghost pre = self.stat_map.deep_view();
                self.stat_map[lp] = livecopy;
                proof {
                    assert(self.stat_map.deep_view() =~= live_upsert(pre, stat@));
                    assert forall|a: int, b: int|
                        0 <= a < b < self.stat_map.deep_view().len() implies (
                    #[trigger] self.stat_map.deep_view()[a]).name != (
                    #[trigger] self.stat_map.deep_view()[b]).name by {
                        assert(pre[a].name != pre[b].name);
                    }
                }
            },
            None => {
                let ghost pre = self.stat_map.deep_view();
                self.stat_map.push(livecopy);
                proof {
                    assert(self.stat_map.deep_view() =~= live_upsert(pre, stat@));
                    assert forall|a: int, b: int|
                        0 <= a < b < self.stat_map.deep_view().len() implies (
                    #[trigger] self.stat_map.deep_view()[a]).name != (
                    #[trigger] self.stat_map.deep_view()[b]).name by {
                        if b < pre.len() {
                            assert(pre[a].name != pre[b].name);
                        } else {
                            assert(pre[a].name != stat@.name);
                        }
                    }
                }
            },
        }
    }

    /// The accepted tail of the reconciliation pipeline: field backfill,
    /// counter handling, uptime rendering, sticky enrichment, persistence
    /// and the live-map upsert, for a host the registry admits.
    #[verifier::rlimit(100)]
    fn accept_stage(&mut self, stat: HostStat, p: usize, now: u64, lday: u32, lhour: u32, lmin:
        u32) -> (res: Option<Notice>)
        requires
            mgr_wf(old(self)),
            old(self).db@.hosts.len() < u64::MAX,
            p < old(self).hosts_map.deep_view().len(),
            has_cfg(old(self).hosts_map.deep_view(), stat@.name),
            cfg_idx(old(self).hosts_map.deep_view(), stat@.name) == p,
            !old(self).hosts_map.deep_view()[p as int].disabled,
        ensures
            mgr_wf(final(self)),
            final(self).groups == old(self).groups,
            final(self).tunables == old(self).tunables,
            final(self).resp == old(self).resp,
            final(self).latest_notify_ts == old(self).latest_notify_ts,
            final(self).latest_group_gc == old(self).latest_group_gc,
            ({
                let reg1 = old(self).hosts_map.deep_view();
                let live0 = old(self).stat_map.deep_view();
                let info = reg1[p as int];
                let s1 = merge_with_cfg(stat@, info);
                let reset = !s1.vnstat && reset_due(
                    info.last_network_in,
                    s1.network_in,
                    lday,
                    lhour,
                    lmin,
                    info.monthstart,
                );
                let reg2 = if reset {
                    reg1.update(
                        p as int,
                        HostConfigV {
                            last_network_in: s1.network_in,
                            last_network_out: s1.network_out,
                            ..info
                        },
                    )
                } else {
                    reg1
                };
                let s2 = if !s1.vnstat && !reset {
                    HostStatV {
                        last_network_in: info.last_network_in,
                        last_network_out: info.last_network_out,
                        ..s1
                    }
                } else {
                    s1
                };
                let s3 = HostStatV { uptime_str: crate::strutil::spec_uptime_str(s2.uptime), ..s2 };
                let known = has_live(live0, s3.name);
                let prev_ix = live_idx(live0, s3.name);
                let s4 = if known && s3.ip_info is None {
                    HostStatV { ip_info: live0[prev_ix].ip_info, ..s3 }
                } else {
                    s3
                };
                let node_up = known && s4.notify && live0[prev_ix].latest_ts
                    + old(self).tunables.offline_threshold < s4.latest_ts;
                let d0 = old(self).db@;
                let id = crate::db::ensured_id(d0.hosts, s4.name);
                &&& final(self).hosts_map.deep_view() == reg2
                &&& final(self).stat_map.deep_view() == live_upsert(live0, s4)
                &&& (match res {
                    Some(notice) => node_up && notice.kind == EventKind::NodeUp && notice.stat@
                        == s4,
                    None => !node_up,
                })
                &&& final(self).db@.hosts == crate::db::hosts_after_ensure(d0.hosts, s4.name, s4.alias)
                &&& final(self).db@.stats == crate::db::stats_after_insert(
                    d0.stats,
                    crate::db::stat_row_of(s4, id),
                )
                &&& final(self).db@.disk_stats == crate::db::disks_after_inserts(
                    d0.disk_stats,
                    s4.disks,
                    id,
                    s4.latest_ts,
                )
                &&& final(self).db@.agg_stats == d0.agg_stats
                &&& final(self).db@.agg_disk_stats == d0.agg_disk_stats
                &&& final(self).db@.last_network == (if reset {
                    crate::db::anchor_upsert(
                        d0.last_network,
                        id,
                        s4.network_in,
                        s4.network_out,
                        now,
                    )
                } else {
                    d0.last_network
                })
            }),
    {
        let ghost s0 = stat@;
        let ghost reg1 = self.hosts_map.deep_view();
        let ghost live0 = self.stat_map.deep_view();
        let ghost info = reg1[p as int];
        let info_ref = self.hosts_map[p].clone();
        let stat = Self::merge_exec(stat, &info_ref);
        let ghost s1 = stat@;
        proof {
            assert(s1 == merge_with_cfg(s0, info));
        }
        let (stat, counter_write) = self.counters_stage(stat, p, now, lday, lhour, lmin);
        proof {
            if counter_write {
                crate::db::lemma_ensure_has_host(old(self).db@.hosts, s1.name, s1.alias);
                crate::db::lemma_ensure_idempotent(old(self).db@.hosts, s1.name, s1.alias);
            }
        }
        let mut stat = stat;
        stat.uptime_str = crate::strutil::uptime_string(stat.uptime);
        let (stat, node_up) = self.sticky_stage(stat);
        let _ = self.db.save_stat(&stat);
        self.live_publish(&stat);
        if node_up {
            Some(Notice { kind: EventKind::NodeUp, stat })
        } else {
            None
        }
    }

    /// Reconcile one report at wall-clock instant `now`, with the local
    /// calendar parts `(lday, lhour, lmin)` governing the monthly counter
    /// reset. Returns why the report was dropped, or `Accepted` with the
    /// node-up notice when the host reappeared after an offline gap.
    #[verifier::rlimit(100)]
    pub fn report_at(&mut self, stat: HostStat, now: u64, lday: u32, lhour: u32, lmin: u32) -> (res:
        (crate::types::ReportOutcome, Option<Notice>))
        requires
            mgr_wf(old(self)),
            old(self).db@.hosts.len() < u64::MAX,
        ensures
            mgr_wf(final(self)),
            ({
                let step = spec_report(
                    old(self).hosts_map.deep_view(),
                    old(self).groups.deep_view(),
                    old(self).stat_map.deep_view(),
                    stat@,
                    old(self).tunables.offline_threshold,
                    lday,
                    lhour,
                    lmin,
                );
                &&& res.0 == step.outcome
                &&& final(self).hosts_map.deep_view() == step.registry
                &&& final(self).stat_map.deep_view() == step.live
                &&& final(self).groups == old(self).groups
                &&& final(self).tunables == old(self).tunables
                &&& final(self).resp == old(self).resp
                &&& final(self).latest_notify_ts == old(self).latest_notify_ts
                &&& final(self).latest_group_gc == old(self).latest_group_gc
                &&& (match res.1 {
                    Some(notice) => step.node_up && notice.kind == EventKind::NodeUp
                        && notice.stat@ == step.merged,
                    None => !step.node_up,
                })
                &&& (step.outcome == crate::types::ReportOutcome::Accepted ==> {
                    let d0 = old(self).db@;
                    let id = crate::db::ensured_id(d0.hosts, step.merged.name);
                    &&& final(self).db@.hosts == crate::db::hosts_after_ensure(
                        d0.hosts,
                        step.merged.name,
                        step.merged.alias,
                    )
                    &&& final(self).db@.stats == crate::db::stats_after_insert(
                        d0.stats,
                        crate::db::stat_row_of(step.merged, id),
                    )
                    &&& final(self).db@.disk_stats == crate::db::disks_after_inserts(
                        d0.disk_stats,
                        step.merged.disks,
                        id,
                        step.merged.latest_ts,
                    )
                    &&& final(self).db@.agg_stats == d0.agg_stats
                    &&& final(self).db@.agg_disk_stats == d0.agg_disk_stats
                    &&& final(self).db@.last_network == (if step.counter_write {
                        crate::db::anchor_upsert(
                            d0.last_network,
                            id,
                            step.merged.network_in,
                            step.merged.network_out,
                            now,
                        )
                    } else {
                        d0.last_network
                    })
                })
                &&& (step.outcome != crate::types::ReportOutcome::Accepted ==> final(self).db
                    == old(self).db)
            }),
    {
        let mut stat = stat;
        let ghost stat0 = stat@;
        let ghost reg0v = old(self).hosts_map.deep_view();
        let ghost groupsv = old(self).groups.deep_view();
        let ghost live0v = old(self).stat_map.deep_view();
        let ghost thrv = old(self).tunables.offline_threshold;
        if stat.gid.as_str().unicode_len() > 0 && stat.alias.as_str().unicode_len() == 0 {
            let a = stat.name.clone();
            stat.alias = a;
        }
        let ghost s0 = stat@;
        proof {
            assert(s0 == stage_alias(stat0));
        }
        if !self.group_stage(&stat) {
            proof {
                lemma_step_group_not_found(
                    reg0v,
                    groupsv,
                    live0v,
                    stat0,
                    thrv,
                    lday,
                    lhour,
                    lmin,
                );
            }
            return (crate::types::ReportOutcome::GroupNotFound, None);
        }
        let ghost reg1 = self.hosts_map.deep_view();
        let cpos2 = find_cfg_pos(&self.hosts_map, stat.name.as_str());
        let p = match cpos2 {
            None => {
                proof {
                    lemma_step_unregistered(
                        reg0v,
                        groupsv,
                        live0v,
                        stat0,
                        thrv,
                        lday,
                        lhour,
                        lmin,
                    );
                }
                return (crate::types::ReportOutcome::UnregisteredHost, None);
            },
            Some(p) => p,
        };
        if self.hosts_map[p].disabled {
            proof {
                lemma_step_disabled(reg0v, groupsv, live0v, stat0, thrv, lday, lhour, lmin);
            }
            return (crate::types::ReportOutcome::DisabledHost, None);
        }
        let notice = self.accept_stage(stat, p, now, lday, lhour, lmin);
        proof {
            lemma_step_accepted(reg0v, groupsv, live0v, stat0, thrv, lday, lhour, lmin);
        }
        (crate::types::ReportOutcome::Accepted, notice)
    }


    /// Group garbage collection, throttled by its own timer: when due, evict
    /// registry and live entries whose group-instantiated host has aged past
    /// the GC window.
    fn gc_stage(&mut self, now: u64)
        requires
            mgr_wf(old(self)),
        ensures
            mgr_wf(final(self)),
            final(self).groups == old(self).groups,
            final(self).db == old(self).db,
            final(self).resp == old(self).resp,
            final(self).tunables == old(self).tunables,
            final(self).latest_notify_ts == old(self).latest_notify_ts,
            ({
                let gcw = old(self).tunables.group_gc;
                let gc_open = old(self).latest_group_gc + gcw < now;
                &&& final(self).latest_group_gc == (if gc_open {
                    now
                } else {
                    old(self).latest_group_gc
                })
                &&& final(self).hosts_map.deep_view() == (if gc_open {
                    old(self).hosts_map.deep_view().filter(
                        |c: HostConfigV| keep_cfg(c, now, gcw),
                    )
                } else {
                    old(self).hosts_map.deep_view()
                })
                &&& final(self).stat_map.deep_view() == (if gc_open {
                    old(self).stat_map.deep_view().filter(|s: HostStatV| keep_live(s, now, gcw))
                } else {
                    old(self).stat_map.deep_view()
                })
            }),
    {
        let gcw = self.tunables.group_gc;
        let gc_open = now > gcw && self.latest_group_gc < now - gcw;
        proof {
            assert(gc_open == (old(self).latest_group_gc + gcw < now));
        }
        if !gc_open {
            return ;
        }
        self.latest_group_gc = now;
        let ghost cpred = |c: HostConfigV| keep_cfg(c, now, gcw);
        let mut kept_cfg: Vec<HostConfig> = Vec::new();
        let nc = self.hosts_map.len();
        let mut i: usize = 0;
        while i < nc
            invariant
                nc == self.hosts_map.deep_view().len(),
                i <= nc,
                cpred == (|c: HostConfigV| keep_cfg(c, now, gcw)),
                kept_cfg.deep_view() == self.hosts_map.deep_view().take(i as int).filter(cpred),
            decreases nc - i,
        {
            let ghost pre = self.hosts_map.deep_view().take(i as int);
            let keep = self.hosts_map[i].gid.as_str().unicode_len() == 0 || (now <= gcw
                || self.hosts_map[i].latest_ts >= now - gcw);
            proof {
                assert(keep == keep_cfg(self.hosts_map.deep_view()[i as int], now, gcw));
            }
            if keep {
                kept_cfg.push(self.hosts_map[i].clone());
            }
            proof {
                reveal(Seq::filter);
                assert(self.hosts_map.deep_view().take(i as int + 1).drop_last() =~= pre);
                assert(self.hosts_map.deep_view().take(i as int + 1).last()
                    == self.hosts_map.deep_view()[i as int]);
                assert(kept_cfg.deep_view() =~= self.hosts_map.deep_view().take(
                    i as int + 1,
                ).filter(cpred));
            }
            i = i + 1;
        }
        proof {
            assert(self.hosts_map.deep_view().take(nc as int) =~= self.hosts_map.deep_view());
            crate::db::lemma_filter_sorted(
                self.hosts_map.deep_view(),
                cpred,
                |a: HostConfigV, b: HostConfigV| a.name != b.name,
            );
        }
        self.hosts_map = kept_cfg;

        let ghost lpred = |s: HostStatV| keep_live(s, now, gcw);
        let mut kept_live: Vec<HostStat> = Vec::new();
        let nl = self.stat_map.len();
        let mut j: usize = 0;
        while j < nl
            invariant
                nl == self.stat_map.deep_view().len(),
                j <= nl,
                lpred == (|s: HostStatV| keep_live(s, now, gcw)),
                kept_live.deep_view() == self.stat_map.deep_view().take(j as int).filter(lpred),
            decreases nl - j,
        {
            let ghost pre = self.stat_map.deep_view().take(j as int);
            let keep = self.stat_map[j].gid.as_str().unicode_len() == 0 || (now <= gcw
                || self.stat_map[j].latest_ts >= now - gcw);
            proof {
                assert(keep == keep_live(self.stat_map.deep_view()[j as int], now, gcw));
            }
            if keep {
                kept_live.push(self.stat_map[j].clone());
            }
            proof {
                reveal(Seq::filter);
                assert(self.stat_map.deep_view().take(j as int + 1).drop_last() =~= pre);
                assert(self.stat_map.deep_view().take(j as int + 1).last()
                    == self.stat_map.deep_view()[j as int]);
                assert(kept_live.deep_view() =~= self.stat_map.deep_view().take(
                    j as int + 1,
                ).filter(lpred));
            }
            j = j + 1;
        }
        proof {
            assert(self.stat_map.deep_view().take(nl as int) =~= self.stat_map.deep_view());
            crate::db::lemma_filter_sorted(
                self.stat_map.deep_view(),
                lpred,
                |a: HostStatV, b: HostStatV| a.name != b.name,
            );
        }
        self.stat_map = kept_live;
    }

    /// One snapshot-publisher tick at instant `now`: group GC when due, then
    /// per entry the offline sweep, OS label inference and the debounced
    /// notifications, then the sorted snapshot replaces the published one.
    /// Returns the notifications of this tick, in live-map order.
    #[verifier::rlimit(100)]
    pub fn sweep_at(&mut self, now: u64) -> (ev: Vec<Notice>)
        requires
            mgr_wf(old(self)),
        ensures
            mgr_wf(final(self)),
            final(self).groups == old(self).groups,
            final(self).db == old(self).db,
            final(self).tunables == old(self).tunables,
            ({
                let thr = old(self).tunables.offline_threshold;
                let gcw = old(self).tunables.group_gc;
                let ni = old(self).tunables.notify_interval;
                let gc_open = old(self).latest_group_gc + gcw < now;
                let reg1 = if gc_open {
                    old(self).hosts_map.deep_view().filter(
                        |c: HostConfigV| keep_cfg(c, now, gcw),
                    )
                } else {
                    old(self).hosts_map.deep_view()
                };
                let gcd = if gc_open {
                    old(self).stat_map.deep_view().filter(|s: HostStatV| keep_live(s, now, gcw))
                } else {
                    old(self).stat_map.deep_view()
                };
                let gate = old(self).latest_notify_ts + ni < now;
                &&& final(self).hosts_map.deep_view() == reg1
                &&& final(self).stat_map.deep_view().len() == gcd.len()
                &&& (forall|i: int|
                    0 <= i < gcd.len() ==> final(self).stat_map.deep_view()[i] == tick_final(
                        #[trigger] gcd[i],
                        now,
                        thr,
                        gate,
                    ))
                &&& ev.deep_view() == tick_events(gcd, now, thr, gate)
                &&& final(self).latest_group_gc == (if gc_open {
                    now
                } else {
                    old(self).latest_group_gc
                })
                &&& final(self).latest_notify_ts == (if gate && any_notify(gcd) {
                    now
                } else {
                    old(self).latest_notify_ts
                })
                &&& final(self).resp@.updated == now
                &&& final(self).resp@.servers.to_multiset() == final(self).stat_map.deep_view().to_multiset()
                &&& (forall|a: int, b: int|
                    0 <= a < b < final(self).resp@.servers.len()
                        ==> crate::order::snap_le(
                        #[trigger] final(self).resp@.servers[a],
                        #[trigger] final(self).resp@.servers[b],
                    ))
                &&& (forall|i: int|
                    0 <= i < gcd.len() && !(#[trigger] gcd[i]).disabled ==> {
                        let cur = final(self).stat_map.deep_view()[i];
                        &&& (gcd[i].latest_ts + thr < now ==> !cur.online4 && !cur.online6)
                        &&& (gcd[i].latest_ts + thr >= now ==> cur.online4 == gcd[i].online4
                            && cur.online6 == gcd[i].online6)
                    })
                &&& (gc_open ==> (forall|i: int|
                    0 <= i < final(self).stat_map.deep_view().len() ==> ((
                    #[trigger] final(self).stat_map.deep_view()[i]).gid.len() > 0
                        ==> final(self).stat_map.deep_view()[i].latest_ts + gcw >= now)) && (forall|i: int|
                    0 <= i < reg1.len() ==> ((#[trigger] reg1[i]).gid.len() > 0 ==> reg1[i].latest_ts
                        + gcw >= now)))
            }),
            sweep_matches(
                old(self).tunables,
                old(self).hosts_map.deep_view(),
                old(self).stat_map.deep_view(),
                old(self).latest_group_gc,
                old(self).latest_notify_ts,
                final(self).hosts_map.deep_view(),
                final(self).stat_map.deep_view(),
                final(self).resp@,
                final(self).latest_group_gc,
                final(self).latest_notify_ts,
                ev.deep_view(),
                now,
            ),
    {
        broadcast use vstd::seq_lib::group_filter_ensures;

        self.gc_stage(now);
        let ghost gcd = self.stat_map.deep_view();
        let ghost reg1 = self.hosts_map.deep_view();
        let thr = self.tunables.offline_threshold;
        let ni = self.tunables.notify_interval;
        let gate = now > ni && self.latest_notify_ts < now - ni;
        proof {
            assert(gate == (old(self).latest_notify_ts + ni < now));
        }
        let mut servers: Vec<HostStat> = Vec::new();
        let mut events: Vec<Notice> = Vec::new();
        let mut notified = false;
        let ghost lgc = self.latest_group_gc;
        let n = self.stat_map.len();
        let mut i: usize = 0;
        while i < n
            invariant
                mgr_wf(self),
                n == self.stat_map.deep_view().len(),
                n == gcd.len(),
                i <= n,
                self.hosts_map.deep_view() == reg1,
                self.groups == old(self).groups,
                self.db == old(self).db,
                self.resp == old(self).resp,
                self.tunables == old(self).tunables,
                self.latest_notify_ts == old(self).latest_notify_ts,
                self.latest_group_gc == lgc,
                forall|j: int| i <= j < n ==> #[trigger] self.stat_map.deep_view()[j] == gcd[j],
                forall|j: int|
                    0 <= j < i ==> #[trigger] self.stat_map.deep_view()[j] == tick_final(
                        gcd[j],
                        now,
                        thr,
                        gate,
                    ),
                servers.deep_view().len() == i,
                forall|j: int|
                    0 <= j < i ==> #[trigger] servers.deep_view()[j] == tick_final(
                        gcd[j],
                        now,
                        thr,
                        gate,
                    ),
                events.deep_view() == tick_events(gcd.take(i as int), now, thr, gate),
                notified == (exists|j: int|
                    0 <= j < i && !(#[trigger] gcd[j]).disabled && gcd[j].notify),
            decreases n - i,
        {
            let entry = self.stat_map[i].clone();
            proof {
                assert(self.stat_map.deep_view()[i as int] == gcd[i as int]);
                assert(entry@ == self.stat_map.deep_view()[i as int]);
            }
            if !entry.disabled && entry.notify {
                notified = true;
            }
            let (adj, evo) = tick_exec(&entry, now, thr, gate);
            let ghost pre_srv = servers.deep_view();
            servers.push(adj.clone());
            proof {
                assert(servers.deep_view() =~= pre_srv.push(
                    tick_final(gcd[i as int], now, thr, gate),
                ));
            }
            let ghost pre_map = self.stat_map.deep_view();
            self.stat_map[i] = adj;
            proof {
                assert(self.stat_map.deep_view() =~= pre_map.update(
                    i as int,
                    tick_final(gcd[i as int], now, thr, gate),
                ));
                lemma_tick_keeps_identity(gcd[i as int], now, thr, gate);
                assert forall|a: int, b: int|
                    0 <= a < b < self.stat_map.deep_view().len() implies (
                #[trigger] self.stat_map.deep_view()[a]).name != (
                #[trigger] self.stat_map.deep_view()[b]).name by {
                    assert(pre_map[a].name != pre_map[b].name);
                }
            }
            match evo {
                Some(nt) => {
                    events.push(nt);
                },
                None => {},
            }
            proof {
                assert(gcd.take(i as int + 1).drop_last() =~= gcd.take(i as int));
                assert(gcd.take(i as int + 1).last() == gcd[i as int]);
                assert(events.deep_view() =~= tick_events(gcd.take(i as int + 1), now, thr, gate));
            }
            i = i + 1;
        }
        proof {
            assert(gcd.take(n as int) =~= gcd);
        }
        if gate && notified {
            self.latest_notify_ts = now;
        }
        let ghost pre_sort = servers.deep_view();
        crate::order::sort_servers(&mut servers);
        let ghost sorted_view = servers.deep_view();
        self.resp = StatsResp { updated: now, servers };
        proof {
            // the sorted snapshot holds exactly the adjusted entries
            assert(self.resp@.servers == sorted_view);
            assert(pre_sort =~= self.stat_map.deep_view());
            assert(sorted_view.to_multiset() == self.stat_map.deep_view().to_multiset());
            assert forall|j: int|
                0 <= j < n implies #[trigger] self.stat_map.deep_view()[j] == tick_final(
                gcd[j],
                now,
                thr,
                gate,
            ) by {}
            // offline transitions, each way
            assert forall|j: int| 0 <= j < gcd.len() && !(#[trigger] gcd[j]).disabled implies {
                let cur = self.stat_map.deep_view()[j];
                &&& (gcd[j].latest_ts + thr < now ==> !cur.online4 && !cur.online6)
                &&& (gcd[j].latest_ts + thr >= now ==> cur.online4 == gcd[j].online4 && cur.online6
                    == gcd[j].online6)
            } by {
                lemma_tick_offline(gcd[j], now, thr, gate);
            }
        }
        let ghost gcw = self.tunables.group_gc;
        proof {
            if old(self).latest_group_gc + gcw < now {
                assert forall|j: int|
                    0 <= j < self.stat_map.deep_view().len() implies ((
                #[trigger] self.stat_map.deep_view()[j]).gid.len() > 0
                    ==> self.stat_map.deep_view()[j].latest_ts + gcw >= now) by {
                    lemma_tick_keeps_identity(gcd[j], now, thr, gate);
                    assert(keep_live(gcd[j], now, gcw));
                }
                assert forall|j: int|
                    0 <= j < reg1.len() implies ((#[trigger] reg1[j]).gid.len() > 0
                    ==> reg1[j].latest_ts + gcw >= now) by {
                    assert(keep_cfg(reg1[j], now, gcw));
                }
            }
        }
        events
    }


    /// Serve a range query reshaped into per-metric series: delegate to the
    /// store's tier-selecting query, then turn each host's records into
    /// timestamp-keyed series (percentages in hundredths of a percent). The
    /// `updated` stamp reads the wall clock.
    pub fn get_stats_by_timerange(&self, start_time: u64, end_time: u64) -> (r: HistoryResp)
        requires
            mgr_wf(self),
        ensures
            r.servers.deep_view() == history_of(
                crate::db::query_spec(self.db@, self.db@.hosts, start_time, end_time),
            ),
    {
        let series = self.db.get_stats_by_timerange(start_time, end_time);
        let ghost qs = crate::db::query_spec(self.db@, self.db@.hosts, start_time, end_time);
        let mut servers: Vec<HostHistory> = Vec::new();
        let n = series.len();
        let mut i: usize = 0;
        while i < n
            invariant
                n == series@.len(),
                i <= n,
                series.deep_view() == qs,
                servers.deep_view() == history_of(qs.take(i as int)),
            decreases n - i,
        {
            let ghost pre = qs.take(i as int);
            if series[i].records.len() > 0 {
                let hh = build_history(&series[i]);
                proof {
                    assert(series[i as int].deep_view() == qs[i as int]);
                }
                servers.push(hh);
            }
            proof {
                assert(qs.take(i as int + 1).drop_last() =~= pre);
                assert(qs.take(i as int + 1).last() == qs[i as int]);
                assert(servers.deep_view() =~= history_of(qs.take(i as int + 1)));
            }
            i = i + 1;
        }
        proof {
            assert(qs.take(n as int) =~= qs);
        }
        let updated = crate::clock::now_unix();
        HistoryResp { updated, servers }
    }

    /// Reconcile one report against the wall clock and local calendar.
    pub fn report(&mut self, stat: HostStat) -> (res: (
        crate::types::ReportOutcome,
        Option<Notice>,
    ))
        requires
            mgr_wf(old(self)),
            old(self).db@.hosts.len() < u64::MAX,
        ensures
            mgr_wf(final(self)),
            final(self).groups == old(self).groups,
            final(self).tunables == old(self).tunables,
            final(self).resp == old(self).resp,
            exists|lday: u32, lhour: u32, lmin: u32, n: u64|
                1 <= lday <= 31 && lhour <= 23 && lmin <= 59 && #[trigger] report_matches(
                    old(self).hosts_map.deep_view(),
                    old(self).groups.deep_view(),
                    old(self).stat_map.deep_view(),
                    old(self).db@,
                    final(self).hosts_map.deep_view(),
                    final(self).stat_map.deep_view(),
                    final(self).db@,
                    res.0,
                    res.1.deep_view(),
                    stat@,
                    old(self).tunables.offline_threshold,
                    n,
                    lday,
                    lhour,
                    lmin,
                ),
    {
        let (lday, lhour, lmin) = crate::clock::local_now_parts();
        let now = crate::clock::now_unix();
        let res = self.report_at(stat, now, lday, lhour, lmin);
        proof {
            assert(report_matches(
                old(self).hosts_map.deep_view(),
                old(self).groups.deep_view(),
                old(self).stat_map.deep_view(),
                old(self).db@,
                final(self).hosts_map.deep_view(),
                final(self).stat_map.deep_view(),
                final(self).db@,
                res.0,
                res.1.deep_view(),
                stat@,
                old(self).tunables.offline_threshold,
                now,
                lday,
                lhour,
                lmin,
            ));
        }
        res
    }

    /// One snapshot-publisher tick against the wall clock.
    pub fn sweep(&mut self) -> (ev: Vec<Notice>)
        requires
            mgr_wf(old(self)),
        ensures
            mgr_wf(final(self)),
            final(self).groups == old(self).groups,
            final(self).db == old(self).db,
            final(self).tunables == old(self).tunables,
            exists|n: u64|
                #[trigger] sweep_matches(
                    old(self).tunables,
                    old(self).hosts_map.deep_view(),
                    old(self).stat_map.deep_view(),
                    old(self).latest_group_gc,
                    old(self).latest_notify_ts,
                    final(self).hosts_map.deep_view(),
                    final(self).stat_map.deep_view(),
                    final(self).resp@,
                    final(self).latest_group_gc,
                    final(self).latest_notify_ts,
                    ev.deep_view(),
                    n,
                ),
    {
        let now = crate::clock::now_unix();
        let ev = self.sweep_at(now);
        proof {
            assert(sweep_matches(
                old(self).tunables,
                old(self).hosts_map.deep_view(),
                old(self).stat_map.deep_view(),
                old(self).latest_group_gc,
                old(self).latest_notify_ts,
                final(self).hosts_map.deep_view(),
                final(self).stat_map.deep_view(),
                final(self).resp@,
                final(self).latest_group_gc,
                final(self).latest_notify_ts,
                ev.deep_view(),
                now,
            ));
        }
        ev
    }

    /// The latest published snapshot, as an independent copy.
    pub fn get_stats(&self) -> (r: StatsResp)
        ensures
            r@ == self.resp@,
    {
        self.resp.clone()
    }
}

} // verus!
