use vstd::prelude::*;

verus! {

use crate::strutil::lex_le;
use crate::strutil::str_eq;
use crate::types::HostStat;

/// Errors the store surfaces to its callers.
#[derive(Clone, Copy, Debug, PartialEq, Eq, Structural)]
pub enum StoreError {
    /// A last-network update names a host that `ensure_host_exists` has not
    /// created yet.
    HostNotFound,
}

/// One row of the host table.
pub struct HostRow {
    pub id: u64,
    pub name: String,
    pub alias: String,
}

/// Mathematical image of a [`HostRow`].
pub struct HostRowV {
    pub id: u64,
    pub name: Seq<char>,
    pub alias: Seq<char>,
}

impl View for HostRow {
    type V = HostRowV;

    open spec fn view(&self) -> HostRowV {
        HostRowV { id: self.id, name: self.name@, alias: self.alias@ }
    }
}

impl DeepView for HostRow {
    type V = HostRowV;

    open spec fn deep_view(&self) -> HostRowV {
        self.view()
    }
}

/// One raw sample row: the telemetry of one host at one instant.
#[derive(Clone, Copy, Debug, PartialEq, Eq, Structural)]
pub struct StatRow {
    pub host_id: u64,
    pub timestamp: u64,
    pub cpu: u64,
    pub memory_total: u64,
    pub memory_used: u64,
    pub network_in: u64,
    pub network_out: u64,
    pub network_in_speed: u64,
    pub network_out_speed: u64,
    pub online: bool,
}

/// One raw per-disk row.
pub struct DiskRow {
    pub host_id: u64,
    pub timestamp: u64,
    pub mount_point: String,
    pub total: u64,
    pub used: u64,
}

/// Mathematical image of a [`DiskRow`].
pub struct DiskRowV {
    pub host_id: u64,
    pub timestamp: u64,
    pub mount_point: Seq<char>,
    pub total: u64,
    pub used: u64,
}

impl View for DiskRow {
    type V = DiskRowV;

    open spec fn view(&self) -> DiskRowV {
        DiskRowV {
            host_id: self.host_id,
            timestamp: self.timestamp,
            mount_point: self.mount_point@,
            total: self.total,
            used: self.used,
        }
    }
}

impl DeepView for DiskRow {
    type V = DiskRowV;

    open spec fn deep_view(&self) -> DiskRowV {
        self.view()
    }
}

/// One aggregated sample row for a fixed resolution tier.
#[derive(Clone, Copy, Debug, PartialEq, Eq, Structural)]
pub struct AggStatRow {
    pub host_id: u64,
    pub timestamp: u64,
    pub interval_minutes: u64,
    pub cpu: u64,
    pub memory_total: u64,
    pub memory_used: u64,
    pub network_in: u64,
    pub network_out: u64,
    pub network_in_speed: u64,
    pub network_out_speed: u64,
    pub online: bool,
}

/// One aggregated per-disk row for a fixed resolution tier.
pub struct AggDiskRow {
    pub host_id: u64,
    pub timestamp: u64,
    pub interval_minutes: u64,
    pub mount_point: String,
    pub total: u64,
    pub used: u64,
}

/// Mathematical image of an [`AggDiskRow`].
pub struct AggDiskRowV {
    pub host_id: u64,
    pub timestamp: u64,
    pub interval_minutes: u64,
    pub mount_point: Seq<char>,
    pub total: u64,
    pub used: u64,
}

impl View for AggDiskRow {
    type V = AggDiskRowV;

    open spec fn view(&self) -> AggDiskRowV {
        AggDiskRowV {
            host_id: self.host_id,
            timestamp: self.timestamp,
            interval_minutes: self.interval_minutes,
            mount_point: self.mount_point@,
            total: self.total,
            used: self.used,
        }
    }
}

impl DeepView for AggDiskRow {
    type V = AggDiskRowV;

    open spec fn deep_view(&self) -> AggDiskRowV {
        self.view()
    }
}

/// The most recent cumulative network counters of one host.
#[derive(Clone, Copy, Debug, PartialEq, Eq, Structural)]
pub struct LastNetworkRow {
    pub host_id: u64,
    pub network_in: u64,
    pub network_out: u64,
    pub updated_at: u64,
}

/// The time-series store: host registry rows, raw samples, fixed-resolution
/// aggregates and per-host counter anchors. Durable persistence is the
/// caller's concern; the store is the single authority on the rows' shape.
pub struct Database {
    pub hosts: Vec<HostRow>,
    pub stats: Vec<StatRow>,
    pub disk_stats: Vec<DiskRow>,
    pub agg_stats: Vec<AggStatRow>,
    pub agg_disk_stats: Vec<AggDiskRow>,
    pub last_network: Vec<LastNetworkRow>,
}

/// Mathematical image of the whole store.
pub struct DatabaseV {
    pub hosts: Seq<HostRowV>,
    pub stats: Seq<StatRow>,
    pub disk_stats: Seq<DiskRowV>,
    pub agg_stats: Seq<AggStatRow>,
    pub agg_disk_stats: Seq<AggDiskRowV>,
    pub last_network: Seq<LastNetworkRow>,
}

impl View for Database {
    type V = DatabaseV;

    open spec fn view(&self) -> DatabaseV {
        DatabaseV {
            hosts: self.hosts.deep_view(),
            stats: self.stats@,
            disk_stats: self.disk_stats.deep_view(),
            agg_stats: self.agg_stats@,
            agg_disk_stats: self.agg_disk_stats.deep_view(),
            last_network: self.last_network@,
        }
    }
}

/// Disk rows are kept ordered by timestamp, ties broken by mount point.
pub open spec fn disk_key_le(a: DiskRowV, b: DiskRowV) -> bool {
    a.timestamp < b.timestamp || (a.timestamp == b.timestamp && lex_le(a.mount_point, b.mount_point))
}

/// The insert-or-replace key of an aggregated sample row.
pub open spec fn agg_key(r: AggStatRow) -> (u64, u64, u64) {
    (r.host_id, r.timestamp, r.interval_minutes)
}

/// The insert-or-replace key of an aggregated disk row.
pub open spec fn agg_disk_key(r: AggDiskRowV) -> (u64, u64, u64, Seq<char>) {
    (r.host_id, r.timestamp, r.interval_minutes, r.mount_point)
}

/// An aggregated row sits exactly on a boundary of its tier's bucket width.
pub open spec fn agg_aligned(timestamp: u64, interval_minutes: u64) -> bool {
    interval_minutes > 0 && timestamp as int % (interval_minutes * 60) == 0
}

/// Well-formedness of the store:
/// host ids are the 1-based row numbers and names are unique; raw tables are
/// ordered by timestamp (disk rows also by mount point); aggregated tables are
/// ordered by timestamp, unique per key, and bucket-aligned; counter anchors
/// are unique per host.
pub open spec fn db_wf(d: DatabaseV) -> bool {
    &&& forall|i: int| 0 <= i < d.hosts.len() ==> (#[trigger] d.hosts[i]).id == i + 1
    &&& forall|i: int, j: int|
        0 <= i < j < d.hosts.len() ==> (#[trigger] d.hosts[i]).name != (#[trigger] d.hosts[j]).name
    &&& forall|i: int, j: int|
        0 <= i < j < d.stats.len() ==> (#[trigger] d.stats[i]).timestamp
            <= (#[trigger] d.stats[j]).timestamp
    &&& forall|i: int, j: int|
        0 <= i < j < d.disk_stats.len() ==> disk_key_le(
            #[trigger] d.disk_stats[i],
            #[trigger] d.disk_stats[j],
        )
    &&& forall|i: int, j: int|
        0 <= i < j < d.agg_stats.len() ==> (#[trigger] d.agg_stats[i]).timestamp
            <= (#[trigger] d.agg_stats[j]).timestamp
    &&& forall|i: int, j: int|
        0 <= i < j < d.agg_stats.len() ==> agg_key(#[trigger] d.agg_stats[i]) != agg_key(
            #[trigger] d.agg_stats[j],
        )
    &&& forall|i: int|
        0 <= i < d.agg_stats.len() ==> agg_aligned(
            (#[trigger] d.agg_stats[i]).timestamp,
            d.agg_stats[i].interval_minutes,
        )
    &&& forall|i: int, j: int|
        0 <= i < j < d.agg_disk_stats.len() ==> agg_disk_key(#[trigger] d.agg_disk_stats[i])
            != agg_disk_key(#[trigger] d.agg_disk_stats[j])
    &&& forall|i: int|
        0 <= i < d.agg_disk_stats.len() ==> agg_aligned(
            (#[trigger] d.agg_disk_stats[i]).timestamp,
            d.agg_disk_stats[i].interval_minutes,
        )
    &&& forall|i: int, j: int|
        0 <= i < j < d.last_network.len() ==> (#[trigger] d.last_network[i]).host_id
            != (#[trigger] d.last_network[j]).host_id
}

/// Some host row carries `name`.
pub open spec fn has_host(hosts: Seq<HostRowV>, name: Seq<char>) -> bool {
    exists|i: int| 0 <= i < hosts.len() && (#[trigger] hosts[i]).name == name
}

/// The index of the host row carrying `name`; under `db_wf` it is unique.
pub open spec fn host_idx(hosts: Seq<HostRowV>, name: Seq<char>) -> int {
    choose|i: int| 0 <= i < hosts.len() && (#[trigger] hosts[i]).name == name
}

/// Some counter-anchor row belongs to host `id`.
pub open spec fn has_last_net(rows: Seq<LastNetworkRow>, id: u64) -> bool {
    exists|i: int| 0 <= i < rows.len() && (#[trigger] rows[i]).host_id == id
}

/// The index of host `id`'s counter-anchor row; under `db_wf` it is unique.
pub open spec fn last_net_idx(rows: Seq<LastNetworkRow>, id: u64) -> int {
    choose|i: int| 0 <= i < rows.len() && (#[trigger] rows[i]).host_id == id
}


/// The counter-anchor table after an upsert for host id `id`: the unique
/// anchor row replaced in place, or appended on first sight.
pub open spec fn anchor_upsert(
    rows: Seq<LastNetworkRow>,
    id: u64,
    ni: u64,
    no: u64,
    now: u64,
) -> Seq<LastNetworkRow> {
    let row = LastNetworkRow { host_id: id, network_in: ni, network_out: no, updated_at: now };
    if has_last_net(rows, id) {
        rows.update(last_net_idx(rows, id), row)
    } else {
        rows.push(row)
    }
}

/// After `ensure_host_exists(name, alias)` the host row exists.
pub proof fn lemma_ensure_has_host(hosts: Seq<HostRowV>, name: Seq<char>, alias: Seq<char>)
    ensures
        has_host(hosts_after_ensure(hosts, name, alias), name),
{
    let h1 = hosts_after_ensure(hosts, name, alias);
    if has_host(hosts, name) {
        let i = host_idx(hosts, name);
        assert(h1[i].name == name);
    } else {
        assert(h1[hosts.len() as int].name == name);
    }
}

/// Ensuring a host twice with the same name and alias is the same as
/// ensuring it once, and both hand back the same id.
pub proof fn lemma_ensure_idempotent(hosts: Seq<HostRowV>, name: Seq<char>, alias: Seq<char>)
    requires
        hosts.len() < u64::MAX,
        forall|i: int, j: int|
            0 <= i < j < hosts.len() ==> (#[trigger] hosts[i]).name != (#[trigger] hosts[j]).name,
    ensures
        hosts_after_ensure(hosts_after_ensure(hosts, name, alias), name, alias)
            == hosts_after_ensure(hosts, name, alias),
        ensured_id(hosts_after_ensure(hosts, name, alias), name) == ensured_id(hosts, name),
{
    let h1 = hosts_after_ensure(hosts, name, alias);
    lemma_ensure_has_host(hosts, name, alias);
    if has_host(hosts, name) {
        let i = host_idx(hosts, name);
        let j = host_idx(h1, name);
        if j != i {
            assert(h1[j].name == name);
            assert(hosts[j].name == name);
            if j < i {
                assert(hosts[j].name != hosts[i].name);
            } else {
                assert(hosts[i].name != hosts[j].name);
            }
        }
        assert(h1[i].id == hosts[i].id);
        if alias.len() > 0 {
            assert(hosts_after_ensure(h1, name, alias) =~= h1);
        }
    } else {
        let j = host_idx(h1, name);
        if j != hosts.len() {
            assert(h1[j].name == name);
            assert(hosts[j].name == name);
            assert(has_host(hosts, name));
        }
        assert(h1[hosts.len() as int].id == hosts.len() + 1);
        if alias.len() > 0 {
            assert(hosts_after_ensure(h1, name, alias) =~= h1);
        }
    }
}

/// `d` with its two aggregated tier tables replaced.
pub open spec fn with_tiers(d: DatabaseV, s: Seq<AggStatRow>, ds: Seq<AggDiskRowV>) -> DatabaseV {
    DatabaseV { agg_stats: s, agg_disk_stats: ds, ..d }
}

/// The tier tables of `new` reflect, over `old`'s raw tables, the four
/// aggregation passes of one maintenance tick at instant `now`, in ascending
/// width order: 5, then 15, then 30, then 60 minutes.
pub open spec fn maintenance_passes(new: DatabaseV, old: DatabaseV, now: u64) -> bool {
    exists|
        s1: Seq<AggStatRow>,
        ds1: Seq<AggDiskRowV>,
        s2: Seq<AggStatRow>,
        ds2: Seq<AggDiskRowV>,
        s3: Seq<AggStatRow>,
        ds3: Seq<AggDiskRowV>,
    |
        #![trigger one_pass_ok(s2, ds2, with_tiers(old, s1, ds1), 15, now), one_pass_ok(s3, ds3, with_tiers(old, s2, ds2), 30, now)]
        one_pass_ok(s1, ds1, old, 5, now) && one_pass_ok(
            s2,
            ds2,
            with_tiers(old, s1, ds1),
            15,
            now,
        ) && one_pass_ok(s3, ds3, with_tiers(old, s2, ds2), 30, now) && one_pass_ok(
            new.agg_stats,
            new.agg_disk_stats,
            with_tiers(old, s3, ds3),
            60,
            now,
        )
}

/// The host table after `ensure_host_exists(name, alias)`: a fresh row at the
/// end for an unknown name, otherwise the alias refreshed in place when the
/// incoming alias is non-empty.
pub open spec fn hosts_after_ensure(
    hosts: Seq<HostRowV>,
    name: Seq<char>,
    alias: Seq<char>,
) -> Seq<HostRowV> {
    if has_host(hosts, name) {
        let i = host_idx(hosts, name);
        if alias.len() > 0 {
            hosts.update(i, HostRowV { id: hosts[i].id, name: hosts[i].name, alias })
        } else {
            hosts
        }
    } else {
        hosts.push(HostRowV { id: (hosts.len() + 1) as u64, name, alias })
    }
}

/// The id `ensure_host_exists(name, _)` hands back.
pub open spec fn ensured_id(hosts: Seq<HostRowV>, name: Seq<char>) -> u64 {
    if has_host(hosts, name) {
        hosts[host_idx(hosts, name)].id
    } else {
        (hosts.len() + 1) as u64
    }
}


/// Where a raw sample with timestamp `ts` lands in the ordered table: right
/// after every row whose timestamp is not greater.
pub open spec fn stat_insert_pos(stats: Seq<StatRow>, ts: u64) -> int {
    stats.filter(|r: StatRow| r.timestamp <= ts).len() as int
}

/// The raw-sample table after one ordered insert.
pub open spec fn stats_after_insert(stats: Seq<StatRow>, row: StatRow) -> Seq<StatRow> {
    stats.insert(stat_insert_pos(stats, row.timestamp), row)
}

/// In a timestamp-ordered table where exactly the first `p` rows satisfy a
/// monotone predicate, the filtered length is `p`.
proof fn lemma_sorted_prefix_filter_len<A>(s: Seq<A>, pred: spec_fn(A) -> bool, p: int)
    requires
        0 <= p <= s.len(),
        forall|j: int| 0 <= j < p ==> pred(#[trigger] s[j]),
        forall|j: int| p <= j < s.len() ==> !pred(#[trigger] s[j]),
    ensures
        s.filter(pred).len() == p,
    decreases s.len(),
{
    reveal(Seq::filter);
    if s.len() == 0 {
    } else {
        if p == s.len() {
            lemma_sorted_prefix_filter_len(s.drop_last(), pred, p - 1);
        } else {
            lemma_sorted_prefix_filter_len(s.drop_last(), pred, p);
        }
    }
}


/// `disk_key_le` is total: any two disk rows are comparable.
pub proof fn lemma_disk_key_le_total(a: DiskRowV, b: DiskRowV)
    ensures
        disk_key_le(a, b) || disk_key_le(b, a),
{
    if a.timestamp == b.timestamp {
        crate::strutil::lemma_lex_le_total(a.mount_point, b.mount_point);
    }
}

/// `disk_key_le` is transitive.
pub proof fn lemma_disk_key_le_trans(a: DiskRowV, b: DiskRowV, c: DiskRowV)
    requires
        disk_key_le(a, b),
        disk_key_le(b, c),
    ensures
        disk_key_le(a, c),
{
    if a.timestamp == b.timestamp && b.timestamp == c.timestamp {
        crate::strutil::lemma_lex_le_trans(a.mount_point, b.mount_point, c.mount_point);
    }
}

/// Decide `disk_key_le(a@, b@)`.
fn disk_le(a: &DiskRow, b: &DiskRow) -> (r: bool)
    ensures
        r == disk_key_le(a@, b@),
{
    if a.timestamp < b.timestamp {
        true
    } else if a.timestamp == b.timestamp {
        crate::strutil::str_lex_le(a.mount_point.as_str(), b.mount_point.as_str())
    } else {
        false
    }
}

/// Where a disk row lands in the ordered table: right after every row whose
/// key is not greater.
pub open spec fn disk_insert_pos(table: Seq<DiskRowV>, row: DiskRowV) -> int {
    table.filter(|d: DiskRowV| disk_key_le(d, row)).len() as int
}

/// The per-disk table after one ordered insert.
pub open spec fn disks_after_insert1(table: Seq<DiskRowV>, row: DiskRowV) -> Seq<DiskRowV> {
    table.insert(disk_insert_pos(table, row), row)
}

/// The raw sample row a merged report yields for host `id`.
pub open spec fn stat_row_of(s: crate::types::HostStatV, id: u64) -> StatRow {
    StatRow {
        host_id: id,
        timestamp: s.latest_ts,
        cpu: s.cpu,
        memory_total: s.memory_total,
        memory_used: s.memory_used,
        network_in: s.network_in,
        network_out: s.network_out,
        network_in_speed: s.network_rx,
        network_out_speed: s.network_tx,
        online: s.online4 || s.online6,
    }
}

/// The per-disk row one reported mount yields.
pub open spec fn disk_row_of(d: crate::types::DiskUsageV, id: u64, ts: u64) -> DiskRowV {
    DiskRowV {
        host_id: id,
        timestamp: ts,
        mount_point: d.mount_point,
        total: d.total,
        used: d.used,
    }
}

/// The per-disk table after inserting one row per reported mount, in report
/// order.
pub open spec fn disks_after_inserts(
    table: Seq<DiskRowV>,
    disks: Seq<crate::types::DiskUsageV>,
    id: u64,
    ts: u64,
) -> Seq<DiskRowV>
    decreases disks.len(),
{
    if disks.len() == 0 {
        table
    } else {
        disks_after_insert1(
            disks_after_inserts(table, disks.drop_last(), id, ts),
            disk_row_of(disks.last(), id, ts),
        )
    }
}


/// The join the original read back at startup: each counter-anchor row whose
/// host row exists, as `(host name, in, out)`, in table order.
pub open spec fn last_net_join(
    rows: Seq<LastNetworkRow>,
    hosts: Seq<HostRowV>,
) -> Seq<(Seq<char>, u64, u64)>
    decreases rows.len(),
{
    if rows.len() == 0 {
        Seq::empty()
    } else {
        last_net_join(rows.drop_last(), hosts) + last_net_entry(rows.last(), hosts)
    }
}

/// The join rows a single counter-anchor row contributes.
pub open spec fn last_net_entry(
    r: LastNetworkRow,
    hosts: Seq<HostRowV>,
) -> Seq<(Seq<char>, u64, u64)> {
    if 1 <= r.host_id <= hosts.len() {
        seq![(hosts[r.host_id - 1].name, r.network_in, r.network_out)]
    } else {
        Seq::empty()
    }
}

/// The timestamp below which `cleanup_old_data` removes raw rows: now minus
/// the retention window, saturating at the epoch.
pub open spec fn prune_cutoff(now: u64, retention_days: u64) -> u64 {
    let w: int = if retention_days * 86400 > u64::MAX { u64::MAX as int } else {
        retention_days * 86400
    };
    if now >= w {
        (now - w) as u64
    } else {
        0
    }
}

/// Filtering a sequence keeps it sorted under any pairwise order.
pub proof fn lemma_filter_sorted<A>(s: Seq<A>, pred: spec_fn(A) -> bool, le: spec_fn(A, A) -> bool)
    requires
        forall|i: int, j: int| 0 <= i < j < s.len() ==> le(#[trigger] s[i], #[trigger] s[j]),
    ensures
        forall|i: int, j: int|
            0 <= i < j < s.filter(pred).len() ==> le(
                #[trigger] s.filter(pred)[i],
                #[trigger] s.filter(pred)[j],
            ),
    decreases s.len(),
{
    reveal(Seq::filter);
    if s.len() > 0 {
        let d = s.drop_last();
        assert forall|i: int, j: int| 0 <= i < j < d.len() implies le(
            #[trigger] d[i],
            #[trigger] d[j],
        ) by {
            assert(le(s[i], s[j]));
        }
        lemma_filter_sorted(d, pred, le);
        let f = s.filter(pred);
        let fd = d.filter(pred);
        if pred(s.last()) {
            assert(f == fd.push(s.last()));
            assert forall|i: int, j: int| 0 <= i < j < f.len() implies le(
                #[trigger] f[i],
                #[trigger] f[j],
            ) by {
                if j < f.len() - 1 {
                    assert(le(fd[i], fd[j]));
                } else {
                    lemma_filter_membership(d, pred, i);
                    let k = choose|k: int| 0 <= k < d.len() && d[k] == fd[i];
                    assert(s.last() == s[s.len() - 1]);
                    assert(le(s[k], s[s.len() - 1]));
                }
            }
        }
    }
}

/// Every element of a filtered sequence comes from the original.
pub proof fn lemma_filter_membership<A>(s: Seq<A>, pred: spec_fn(A) -> bool, i: int)
    requires
        0 <= i < s.filter(pred).len(),
    ensures
        exists|k: int| 0 <= k < s.len() && s[k] == s.filter(pred)[i],
    decreases s.len(),
{
    reveal(Seq::filter);
    if s.len() > 0 {
        let d = s.drop_last();
        let f = s.filter(pred);
        let fd = d.filter(pred);
        if pred(s.last()) && i == f.len() - 1 {
            assert(s[s.len() - 1] == f[i]);
        } else {
            lemma_filter_membership(d, pred, i);
            let k = choose|k: int| 0 <= k < d.len() && d[k] == fd[i];
            assert(s[k] == f[i]);
        }
    }
}


/// Sum of one numeric field over a run of raw rows.
pub open spec fn sum_by(rows: Seq<StatRow>, f: spec_fn(StatRow) -> u64) -> int
    decreases rows.len(),
{
    if rows.len() == 0 {
        0
    } else {
        sum_by(rows.drop_last(), f) + f(rows.last())
    }
}

/// Maximum of one numeric field over a run of raw rows (zero when empty).
pub open spec fn max_by(rows: Seq<StatRow>, f: spec_fn(StatRow) -> u64) -> u64
    decreases rows.len(),
{
    if rows.len() == 0 {
        0
    } else {
        let m = max_by(rows.drop_last(), f);
        if f(rows.last()) > m {
            f(rows.last())
        } else {
            m
        }
    }
}

/// Whether any row in the run was online.
pub open spec fn any_online(rows: Seq<StatRow>) -> bool
    decreases rows.len(),
{
    if rows.len() == 0 {
        false
    } else {
        any_online(rows.drop_last()) || rows.last().online
    }
}

/// A field sum is bounded by the run's length times the field's maximum.
pub proof fn lemma_sum_by_bound(rows: Seq<StatRow>, f: spec_fn(StatRow) -> u64)
    ensures
        0 <= sum_by(rows, f) <= rows.len() * (u64::MAX as int),
    decreases rows.len(),
{
    if rows.len() > 0 {
        lemma_sum_by_bound(rows.drop_last(), f);
        assert((rows.len() - 1) * (u64::MAX as int) + u64::MAX == rows.len() * (u64::MAX as int))
            by (nonlinear_arith);
    }
}

/// The aggregated row one bucket of raw rows yields: averages for gauges,
/// maxima for the cumulative counters, "was online at any sampled instant"
/// for the online flag.
pub open spec fn bucket_agg_row(rows: Seq<StatRow>, h: u64, t: u64, interval: u64) -> AggStatRow
    recommends
        rows.len() > 0,
{
    AggStatRow {
        host_id: h,
        timestamp: t,
        interval_minutes: interval,
        cpu: (sum_by(rows, |r: StatRow| r.cpu) / rows.len() as int) as u64,
        memory_total: (sum_by(rows, |r: StatRow| r.memory_total) / rows.len() as int) as u64,
        memory_used: (sum_by(rows, |r: StatRow| r.memory_used) / rows.len() as int) as u64,
        network_in: max_by(rows, |r: StatRow| r.network_in),
        network_out: max_by(rows, |r: StatRow| r.network_out),
        network_in_speed: (sum_by(rows, |r: StatRow| r.network_in_speed) / rows.len() as int) as u64,
        network_out_speed: (sum_by(rows, |r: StatRow| r.network_out_speed)
            / rows.len() as int) as u64,
        online: any_online(rows),
    }
}

/// The raw rows of host `h` inside the bucket starting at `t`.
pub open spec fn stat_bucket(d: DatabaseV, h: u64, t: u64, interval: u64) -> Seq<StatRow> {
    d.stats.filter(|r: StatRow| r.host_id == h && t <= r.timestamp < t + interval * 60)
}

/// Sum of one numeric field over a run of disk rows.
pub open spec fn disk_sum_by(rows: Seq<DiskRowV>, f: spec_fn(DiskRowV) -> u64) -> int
    decreases rows.len(),
{
    if rows.len() == 0 {
        0
    } else {
        disk_sum_by(rows.drop_last(), f) + f(rows.last())
    }
}

/// A disk field sum is bounded by the run's length times the field maximum.
pub proof fn lemma_disk_sum_by_bound(rows: Seq<DiskRowV>, f: spec_fn(DiskRowV) -> u64)
    ensures
        0 <= disk_sum_by(rows, f) <= rows.len() * (u64::MAX as int),
    decreases rows.len(),
{
    if rows.len() > 0 {
        lemma_disk_sum_by_bound(rows.drop_last(), f);
        assert((rows.len() - 1) * (u64::MAX as int) + u64::MAX == rows.len() * (u64::MAX as int))
            by (nonlinear_arith);
    }
}

/// The disk rows of host `h` inside the bucket starting at `t`.
pub open spec fn disk_bucket(d: DatabaseV, h: u64, t: u64, interval: u64) -> Seq<DiskRowV> {
    d.disk_stats.filter(|r: DiskRowV| r.host_id == h && t <= r.timestamp < t + interval * 60)
}

/// The rows of one mount within a bucket.
pub open spec fn mount_rows(rows: Seq<DiskRowV>, m: Seq<char>) -> Seq<DiskRowV> {
    rows.filter(|r: DiskRowV| r.mount_point == m)
}

/// The distinct mount points of a run of disk rows, in first-appearance order.
pub open spec fn mounts_of(rows: Seq<DiskRowV>) -> Seq<Seq<char>>
    decreases rows.len(),
{
    if rows.len() == 0 {
        Seq::empty()
    } else {
        let prev = mounts_of(rows.drop_last());
        if prev.contains(rows.last().mount_point) {
            prev
        } else {
            prev.push(rows.last().mount_point)
        }
    }
}

/// The aggregated disk row one mount's bucket rows yield: averages of the
/// capacity gauges.
pub open spec fn bucket_disk_row(
    rows: Seq<DiskRowV>,
    h: u64,
    t: u64,
    interval: u64,
    m: Seq<char>,
) -> AggDiskRowV
    recommends
        rows.len() > 0,
{
    AggDiskRowV {
        host_id: h,
        timestamp: t,
        interval_minutes: interval,
        mount_point: m,
        total: (disk_sum_by(rows, |r: DiskRowV| r.total) / rows.len() as int) as u64,
        used: (disk_sum_by(rows, |r: DiskRowV| r.used) / rows.len() as int) as u64,
    }
}

/// Some aggregated row belongs to tier `interval`.
pub open spec fn has_agg_interval(s: Seq<AggStatRow>, interval: u64) -> bool {
    exists|i: int| 0 <= i < s.len() && (#[trigger] s[i]).interval_minutes == interval
}

/// `v` is the latest timestamp tier `interval` has aggregated.
pub open spec fn is_max_agg_ts(s: Seq<AggStatRow>, interval: u64, v: u64) -> bool {
    &&& exists|i: int|
        0 <= i < s.len() && (#[trigger] s[i]).interval_minutes == interval && s[i].timestamp == v
    &&& forall|i: int|
        0 <= i < s.len() && (#[trigger] s[i]).interval_minutes == interval ==> s[i].timestamp <= v
}

/// The latest timestamp tier `interval` has aggregated; meaningful only when
/// the tier has rows.
pub open spec fn max_agg_ts(s: Seq<AggStatRow>, interval: u64) -> u64 {
    choose|v: u64| is_max_agg_ts(s, interval, v)
}

/// A tier with rows has a well-defined latest aggregated timestamp.
pub proof fn lemma_max_agg_ts_exists(s: Seq<AggStatRow>, interval: u64)
    requires
        has_agg_interval(s, interval),
    ensures
        is_max_agg_ts(s, interval, max_agg_ts(s, interval)),
    decreases s.len(),
{
    let d = s.drop_last();
    if s.last().interval_minutes == interval {
        if has_agg_interval(d, interval) {
            lemma_max_agg_ts_exists(d, interval);
            let m = max_agg_ts(d, interval);
            let v = if s.last().timestamp > m {
                s.last().timestamp
            } else {
                m
            };
            assert forall|i: int|
                0 <= i < s.len() && (#[trigger] s[i]).interval_minutes
                    == interval implies s[i].timestamp <= v by {
                if i < s.len() - 1 {
                    assert(d[i].timestamp <= m);
                }
            }
            let j = choose|i: int|
                0 <= i < d.len() && (#[trigger] d[i]).interval_minutes == interval
                    && d[i].timestamp == m;
            assert(is_max_agg_ts(s, interval, v));
        } else {
            let v = s.last().timestamp;
            assert forall|i: int|
                0 <= i < s.len() && (#[trigger] s[i]).interval_minutes
                    == interval implies s[i].timestamp <= v by {
                if i < s.len() - 1 {
                    assert(d[i].interval_minutes == interval);
                    assert(has_agg_interval(d, interval));
                }
            }
            assert(is_max_agg_ts(s, interval, v));
        }
    } else {
        assert forall|i: int|
            0 <= i < d.len() && (#[trigger] d[i]).interval_minutes == interval implies true by {}
        assert(has_agg_interval(d, interval)) by {
            let i = choose|i: int|
                0 <= i < s.len() && (#[trigger] s[i]).interval_minutes == interval;
            assert(d[i].interval_minutes == interval);
        }
        lemma_max_agg_ts_exists(d, interval);
        let m = max_agg_ts(d, interval);
        assert forall|i: int|
            0 <= i < s.len() && (#[trigger] s[i]).interval_minutes
                == interval implies s[i].timestamp <= m by {
            if i < s.len() - 1 {
                assert(d[i].timestamp <= m);
            }
        }
        let j = choose|i: int|
            0 <= i < d.len() && (#[trigger] d[i]).interval_minutes == interval && d[i].timestamp
                == m;
        assert(is_max_agg_ts(s, interval, m));
    }
}

/// A timestamp truncated down to a boundary of `step`.
pub open spec fn floor_to(t: u64, step: u64) -> u64
    recommends
        step > 0,
{
    ((t as int / step as int) * step as int) as u64
}

/// The first bucket an aggregation pass for tier `interval` walks: the latest
/// aggregated bucket again (it may have been partial), or the bucket of the
/// earliest raw sample when the tier is empty.
pub open spec fn agg_start(d: DatabaseV, interval: u64) -> Option<u64> {
    if has_agg_interval(d.agg_stats, interval) {
        Some(floor_to(max_agg_ts(d.agg_stats, interval), (interval * 60) as u64))
    } else if d.stats.len() > 0 {
        Some(floor_to(d.stats[0].timestamp, (interval * 60) as u64))
    } else {
        None
    }
}

/// Whether an aggregation pass for tier `interval` at wall-clock `now` writes
/// the aggregated-sample key `k` (host id, bucket timestamp, tier).
pub open spec fn agg_written(d: DatabaseV, interval: u64, now: u64, k: (u64, u64, u64)) -> bool {
    match agg_start(d, interval) {
        Option::None => false,
        Option::Some(start) => {
            &&& k.2 == interval
            &&& 1 <= k.0 <= d.hosts.len()
            &&& start <= k.1 < floor_to(now, (interval * 60) as u64)
            &&& k.1 as int % (interval * 60) == 0
            &&& stat_bucket(d, k.0, k.1, interval).len() > 0
        },
    }
}

/// Whether an aggregation pass writes the aggregated-disk key `k` (host id,
/// bucket timestamp, tier, mount point).
pub open spec fn agg_disk_written(
    d: DatabaseV,
    interval: u64,
    now: u64,
    k: (u64, u64, u64, Seq<char>),
) -> bool {
    match agg_start(d, interval) {
        Option::None => false,
        Option::Some(start) => {
            &&& k.2 == interval
            &&& 1 <= k.0 <= d.hosts.len()
            &&& start <= k.1 < floor_to(now, (interval * 60) as u64)
            &&& k.1 as int % (interval * 60) == 0
            &&& mount_rows(disk_bucket(d, k.0, k.1, interval), k.3).len() > 0
        },
    }
}

/// Some aggregated-sample row carries key `k`.
pub open spec fn has_agg_key(s: Seq<AggStatRow>, k: (u64, u64, u64)) -> bool {
    exists|i: int| 0 <= i < s.len() && agg_key(#[trigger] s[i]) == k
}

/// The aggregated-sample row carrying key `k`; under `db_wf` it is unique.
pub open spec fn agg_row_at(s: Seq<AggStatRow>, k: (u64, u64, u64)) -> AggStatRow {
    s[choose|i: int| 0 <= i < s.len() && agg_key(#[trigger] s[i]) == k]
}

/// Some aggregated-disk row carries key `k`.
pub open spec fn has_agg_disk_key(s: Seq<AggDiskRowV>, k: (u64, u64, u64, Seq<char>)) -> bool {
    exists|i: int| 0 <= i < s.len() && agg_disk_key(#[trigger] s[i]) == k
}

/// The aggregated-disk row carrying key `k`; under `db_wf` it is unique.
pub open spec fn agg_disk_row_at(
    s: Seq<AggDiskRowV>,
    k: (u64, u64, u64, Seq<char>),
) -> AggDiskRowV {
    s[choose|i: int| 0 <= i < s.len() && agg_disk_key(#[trigger] s[i]) == k]
}


/// With pairwise-distinct keys, the row `agg_row_at` picks for `s[i]`'s key
/// is `s[i]` itself.
pub proof fn lemma_agg_row_at(s: Seq<AggStatRow>, i: int)
    requires
        forall|a: int, b: int|
            0 <= a < b < s.len() ==> agg_key(#[trigger] s[a]) != agg_key(#[trigger] s[b]),
        0 <= i < s.len(),
    ensures
        has_agg_key(s, agg_key(s[i])),
        agg_row_at(s, agg_key(s[i])) == s[i],
{
    assert(has_agg_key(s, agg_key(s[i])));
    let j = choose|j: int| 0 <= j < s.len() && agg_key(#[trigger] s[j]) == agg_key(s[i]);
    if j != i {
        if j < i {
            assert(agg_key(s[j]) != agg_key(s[i]));
        } else {
            assert(agg_key(s[i]) != agg_key(s[j]));
        }
    }
}

/// With pairwise-distinct keys, the row `agg_disk_row_at` picks for `s[i]`'s
/// key is `s[i]` itself.
pub proof fn lemma_agg_disk_row_at(s: Seq<AggDiskRowV>, i: int)
    requires
        forall|a: int, b: int|
            0 <= a < b < s.len() ==> agg_disk_key(#[trigger] s[a]) != agg_disk_key(
                #[trigger] s[b],
            ),
        0 <= i < s.len(),
    ensures
        has_agg_disk_key(s, agg_disk_key(s[i])),
        agg_disk_row_at(s, agg_disk_key(s[i])) == s[i],
{
    assert(has_agg_disk_key(s, agg_disk_key(s[i])));
    let j = choose|j: int| 0 <= j < s.len() && agg_disk_key(#[trigger] s[j]) == agg_disk_key(s[i]);
    if j != i {
        if j < i {
            assert(agg_disk_key(s[j]) != agg_disk_key(s[i]));
        } else {
            assert(agg_disk_key(s[i]) != agg_disk_key(s[j]));
        }
    }
}


/// Two distinct multiples of `step` are at least `step` apart.
pub proof fn lemma_aligned_gap(a: int, b: int, step: int)
    requires
        step > 0,
        a % step == 0,
        b % step == 0,
        a < b,
    ensures
        a + step <= b,
{
    assert(a + step <= b) by (nonlinear_arith)
        requires
            step > 0,
            a % step == 0,
            b % step == 0,
            a < b,
    ;
}

/// Truncating to a bucket boundary never increases a timestamp, and lands on
/// a boundary.
pub proof fn lemma_floor_to(t: u64, step: u64)
    requires
        step > 0,
    ensures
        floor_to(t, step) <= t,
        floor_to(t, step) as int % step as int == 0,
{
    assert((t as int / step as int) * step as int <= t as int && ((t as int / step as int)
        * step as int) % step as int == 0 && (t as int / step as int) * step as int >= 0)
        by (nonlinear_arith)
        requires
            step > 0,
            t >= 0,
    ;
}

/// Every row's mount point is named by `mounts_of`.
pub proof fn lemma_mounts_of_complete(rows: Seq<DiskRowV>, i: int)
    requires
        0 <= i < rows.len(),
    ensures
        mounts_of(rows).contains(rows[i].mount_point),
    decreases rows.len(),
{
    let d = rows.drop_last();
    let prev = mounts_of(d);
    if i < rows.len() - 1 {
        lemma_mounts_of_complete(d, i);
        let j = choose|j: int| 0 <= j < prev.len() && prev[j] == d[i].mount_point;
        if prev.contains(rows.last().mount_point) {
            assert(mounts_of(rows)[j] == rows[i].mount_point);
        } else {
            assert(mounts_of(rows)[j] == rows[i].mount_point);
        }
    } else {
        if prev.contains(rows.last().mount_point) {
            let j = choose|j: int| 0 <= j < prev.len() && prev[j] == rows.last().mount_point;
            assert(mounts_of(rows)[j] == rows[i].mount_point);
        } else {
            assert(mounts_of(rows)[prev.len() as int] == rows[i].mount_point);
        }
    }
}


/// Average helper: divide a bounded sum by a positive count, staying in u64.
fn div_avg(sum: u128, cnt: u64) -> (r: u64)
    requires
        cnt > 0,
        sum <= (cnt as u128) * (u64::MAX as u128),
    ensures
        r == ((sum as int) / (cnt as int)) as u64,
        r <= u64::MAX,
{
    proof {
        assert(sum as int / cnt as int <= u64::MAX as int) by (nonlinear_arith)
            requires
                cnt > 0,
                sum >= 0,
                sum <= (cnt as int) * (u64::MAX as int),
        ;
    }
    (sum / (cnt as u128)) as u64
}

/// Fold one bucket of raw rows into its aggregated row.
fn compute_bucket_row(rows: &Vec<StatRow>, h: u64, t: u64, interval: u64) -> (r: AggStatRow)
    requires
        rows@.len() > 0,
    ensures
        r == bucket_agg_row(rows@, h, t, interval),
{
    let n = rows.len();
    let mut sum_cpu: u128 = 0;
    let mut sum_mt: u128 = 0;
    let mut sum_mu: u128 = 0;
    let mut sum_is: u128 = 0;
    let mut sum_os: u128 = 0;
    let mut max_in: u64 = 0;
    let mut max_out: u64 = 0;
    let mut online: bool = false;
    let mut i: usize = 0;
    while i < n
        invariant
            n == rows@.len(),
            i <= n,
            sum_cpu == sum_by(rows@.take(i as int), |r: StatRow| r.cpu),
            sum_mt == sum_by(rows@.take(i as int), |r: StatRow| r.memory_total),
            sum_mu == sum_by(rows@.take(i as int), |r: StatRow| r.memory_used),
            sum_is == sum_by(rows@.take(i as int), |r: StatRow| r.network_in_speed),
            sum_os == sum_by(rows@.take(i as int), |r: StatRow| r.network_out_speed),
            max_in == max_by(rows@.take(i as int), |r: StatRow| r.network_in),
            max_out == max_by(rows@.take(i as int), |r: StatRow| r.network_out),
            online == any_online(rows@.take(i as int)),
        decreases n - i,
    {
        let ghost pre = rows@.take(i as int);
        proof {
            lemma_sum_by_bound(pre, |r: StatRow| r.cpu);
            lemma_sum_by_bound(pre, |r: StatRow| r.memory_total);
            lemma_sum_by_bound(pre, |r: StatRow| r.memory_used);
            lemma_sum_by_bound(pre, |r: StatRow| r.network_in_speed);
            lemma_sum_by_bound(pre, |r: StatRow| r.network_out_speed);
            assert((i as int) * (u64::MAX as int) + u64::MAX < u128::MAX as int)
                by (nonlinear_arith)
                requires
                    0 <= i < 0x1_0000_0000_0000_0000,
            ;
        }
        let row = rows[i];
        sum_cpu = sum_cpu + row.cpu as u128;
        sum_mt = sum_mt + row.memory_total as u128;
        sum_mu = sum_mu + row.memory_used as u128;
        sum_is = sum_is + row.network_in_speed as u128;
        sum_os = sum_os + row.network_out_speed as u128;
        if row.network_in > max_in {
            max_in = row.network_in;
        }
        if row.network_out > max_out {
            max_out = row.network_out;
        }
        online = online || row.online;
        proof {
            assert(rows@.take(i as int + 1).drop_last() =~= pre);
            assert(rows@.take(i as int + 1).last() == rows@[i as int]);
        }
        i = i + 1;
    }
    proof {
        assert(rows@.take(n as int) =~= rows@);
        lemma_sum_by_bound(rows@, |r: StatRow| r.cpu);
        lemma_sum_by_bound(rows@, |r: StatRow| r.memory_total);
        lemma_sum_by_bound(rows@, |r: StatRow| r.memory_used);
        lemma_sum_by_bound(rows@, |r: StatRow| r.network_in_speed);
        lemma_sum_by_bound(rows@, |r: StatRow| r.network_out_speed);
    }
    let cnt = n as u64;
    AggStatRow {
        host_id: h,
        timestamp: t,
        interval_minutes: interval,
        cpu: div_avg(sum_cpu, cnt),
        memory_total: div_avg(sum_mt, cnt),
        memory_used: div_avg(sum_mu, cnt),
        network_in: max_in,
        network_out: max_out,
        network_in_speed: div_avg(sum_is, cnt),
        network_out_speed: div_avg(sum_os, cnt),
        online,
    }
}

/// Fold one mount's bucket rows into its aggregated disk row.
fn compute_bucket_disk_row(rows: &Vec<DiskRow>, h: u64, t: u64, interval: u64, m: &String) -> (r:
    AggDiskRow)
    requires
        rows@.len() > 0,
    ensures
        r@ == bucket_disk_row(rows.deep_view(), h, t, interval, m@),
{
    let n = rows.len();
    let mut sum_total: u128 = 0;
    let mut sum_used: u128 = 0;
    let mut i: usize = 0;
    while i < n
        invariant
            n == rows@.len(),
            i <= n,
            sum_total == disk_sum_by(rows.deep_view().take(i as int), |r: DiskRowV| r.total),
            sum_used == disk_sum_by(rows.deep_view().take(i as int), |r: DiskRowV| r.used),
        decreases n - i,
    {
        let ghost pre = rows.deep_view().take(i as int);
        proof {
            lemma_disk_sum_by_bound(pre, |r: DiskRowV| r.total);
            lemma_disk_sum_by_bound(pre, |r: DiskRowV| r.used);
            assert((i as int) * (u64::MAX as int) + u64::MAX < u128::MAX as int)
                by (nonlinear_arith)
                requires
                    0 <= i < 0x1_0000_0000_0000_0000,
            ;
        }
        sum_total = sum_total + rows[i].total as u128;
        sum_used = sum_used + rows[i].used as u128;
        proof {
            assert(rows.deep_view().take(i as int + 1).drop_last() =~= pre);
            assert(rows.deep_view().take(i as int + 1).last() == rows.deep_view()[i as int]);
        }
        i = i + 1;
    }
    proof {
        assert(rows.deep_view().take(n as int) =~= rows.deep_view());
        lemma_disk_sum_by_bound(rows.deep_view(), |r: DiskRowV| r.total);
        lemma_disk_sum_by_bound(rows.deep_view(), |r: DiskRowV| r.used);
        assert(rows.deep_view().len() == rows@.len());
    }
    let cnt = n as u64;
    AggDiskRow {
        host_id: h,
        timestamp: t,
        interval_minutes: interval,
        mount_point: m.clone(),
        total: div_avg(sum_total, cnt),
        used: div_avg(sum_used, cnt),
    }
}

/// The distinct mount points of a run of disk rows, in first-appearance
/// order.
fn distinct_mounts(rows: &Vec<DiskRow>) -> (r: Vec<String>)
    ensures
        r@.len() == mounts_of(rows.deep_view()).len(),
        forall|j: int|
            0 <= j < r@.len() ==> (#[trigger] r@[j])@ == mounts_of(rows.deep_view())[j],
    {
    let mut out: Vec<String> = Vec::new();
    let n = rows.len();
    let mut i: usize = 0;
    while i < n
        invariant
            n == rows@.len(),
            i <= n,
            out@.len() == mounts_of(rows.deep_view().take(i as int)).len(),
            forall|j: int|
                0 <= j < out@.len() ==> (#[trigger] out@[j])@ == mounts_of(
                    rows.deep_view().take(i as int),
                )[j],
        decreases n - i,
    {
        let ghost pre = rows.deep_view().take(i as int);
        let mut seen = false;
        let m = out.len();
        let mut j: usize = 0;
        while j < m
            invariant
                m == out@.len(),
                j <= m,
                i < n,
                n == rows@.len(),
                seen ==> exists|k: int|
                    0 <= k < out@.len() && (#[trigger] out@[k])@ == rows.deep_view()[i as int].mount_point,
                !seen ==> forall|k: int|
                    0 <= k < j ==> (#[trigger] out@[k])@ != rows.deep_view()[i as int].mount_point,
            decreases m - j,
        {
            if str_eq(out[j].as_str(), rows[i].mount_point.as_str()) {
                seen = true;
                proof {
                    assert(out@[j as int]@ == rows.deep_view()[i as int].mount_point);
                }
            }
            j = j + 1;
        }
        proof {
            let mprev = mounts_of(pre);
            let cur = rows.deep_view()[i as int].mount_point;
            if seen {
                let k = choose|k: int| 0 <= k < out@.len() && (#[trigger] out@[k])@ == cur;
                assert(mprev[k] == cur);
                assert(mprev.contains(cur));
            } else {
                if mprev.contains(cur) {
                    let k = choose|k: int| 0 <= k < mprev.len() && mprev[k] == cur;
                    assert(0 <= k < out@.len());
                    assert(out@[k]@ == mprev[k]);
                    assert(out@[k]@ != cur);
                    assert(false);
                }
            }
        }
        if !seen {
            out.push(rows[i].mount_point.clone());
        }
        proof {
            assert(rows.deep_view().take(i as int + 1).drop_last() =~= pre);
            assert(rows.deep_view().take(i as int + 1).last() == rows.deep_view()[i as int]);
        }
        i = i + 1;
    }
    proof {
        assert(rows.deep_view().take(n as int) =~= rows.deep_view());
    }
    out
}

/// The rows of `rows` whose mount point is `m`.
fn filter_mount(rows: &Vec<DiskRow>, m: &String) -> (r: Vec<DiskRow>)
    ensures
        r.deep_view() == mount_rows(rows.deep_view(), m@),
{
    let ghost pred = |r: DiskRowV| r.mount_point == m@;
    let mut out: Vec<DiskRow> = Vec::new();
    let n = rows.len();
    let mut i: usize = 0;
    while i < n
        invariant
            n == rows@.len(),
            i <= n,
            pred == (|r: DiskRowV| r.mount_point == m@),
            out.deep_view() == rows.deep_view().take(i as int).filter(pred),
        decreases n - i,
    {
        let ghost pre = rows.deep_view().take(i as int);
        if str_eq(rows[i].mount_point.as_str(), m.as_str()) {
            let row = DiskRow {
                host_id: rows[i].host_id,
                timestamp: rows[i].timestamp,
                mount_point: rows[i].mount_point.clone(),
                total: rows[i].total,
                used: rows[i].used,
            };
            proof {
                assert(row@ == rows.deep_view()[i as int]);
            }
            out.push(row);
        }
        proof {
            reveal(Seq::filter);
            assert(rows.deep_view().take(i as int + 1).drop_last() =~= pre);
            assert(rows.deep_view().take(i as int + 1).last() == rows.deep_view()[i as int]);
            assert(out.deep_view() =~= rows.deep_view().take(i as int + 1).filter(pred));
        }
        i = i + 1;
    }
    proof {
        assert(rows.deep_view().take(n as int) =~= rows.deep_view());
    }
    out
}


/// Mid-pass progress of one aggregation round over the sample tier: the keys
/// `done` marks are written with their bucket's fold, the rest still hold
/// their prior rows.
pub open spec fn agg_state_ok(
    cur: Seq<AggStatRow>,
    d0: DatabaseV,
    interval: u64,
    now: u64,
    done: spec_fn((u64, u64, u64)) -> bool,
) -> bool {
    &&& forall|k: (u64, u64, u64)|
        #[trigger] has_agg_key(cur, k) == (has_agg_key(d0.agg_stats, k) || (agg_written(
            d0,
            interval,
            now,
            k,
        ) && done(k)))
    &&& forall|k: (u64, u64, u64)|
        #[trigger] has_agg_key(cur, k) ==> agg_row_at(cur, k) == (if agg_written(
            d0,
            interval,
            now,
            k,
        ) && done(k) {
            bucket_agg_row(stat_bucket(d0, k.0, k.1, interval), k.0, k.1, interval)
        } else {
            agg_row_at(d0.agg_stats, k)
        })
}

/// Mid-pass progress of one aggregation round over the disk tier.
pub open spec fn agg_disk_state_ok(
    cur: Seq<AggDiskRowV>,
    d0: DatabaseV,
    interval: u64,
    now: u64,
    done: spec_fn((u64, u64, u64, Seq<char>)) -> bool,
) -> bool {
    &&& forall|k: (u64, u64, u64, Seq<char>)|
        #[trigger] has_agg_disk_key(cur, k) == (has_agg_disk_key(d0.agg_disk_stats, k) || (
        agg_disk_written(d0, interval, now, k) && done(k)))
    &&& forall|k: (u64, u64, u64, Seq<char>)|
        #[trigger] has_agg_disk_key(cur, k) ==> agg_disk_row_at(cur, k) == (if agg_disk_written(
            d0,
            interval,
            now,
            k,
        ) && done(k) {
            bucket_disk_row(
                mount_rows(disk_bucket(d0, k.0, k.1, interval), k.3),
                k.0,
                k.1,
                interval,
                k.3,
            )
        } else {
            agg_disk_row_at(d0.agg_disk_stats, k)
        })
}

/// Widening the `done` set is sound where no newly-marked key is written.
proof fn lemma_agg_state_extend(
    cur: Seq<AggStatRow>,
    d0: DatabaseV,
    interval: u64,
    now: u64,
    done: spec_fn((u64, u64, u64)) -> bool,
    done2: spec_fn((u64, u64, u64)) -> bool,
)
    requires
        agg_state_ok(cur, d0, interval, now, done),
        forall|k: (u64, u64, u64)|
            #[trigger] done2(k) ==> done(k) || !agg_written(d0, interval, now, k),
        forall|k: (u64, u64, u64)| #[trigger] done(k) ==> done2(k),
    ensures
        agg_state_ok(cur, d0, interval, now, done2),
{
    assert forall|k: (u64, u64, u64)| #[trigger] has_agg_key(cur, k) == (has_agg_key(
        d0.agg_stats,
        k,
    ) || (agg_written(d0, interval, now, k) && done2(k))) by {
        assert(has_agg_key(cur, k) == (has_agg_key(d0.agg_stats, k) || (agg_written(
            d0,
            interval,
            now,
            k,
        ) && done(k))));
    }
}

/// Recording one freshly-folded bucket row marks exactly its key as done.
proof fn lemma_agg_state_upsert(
    cur: Seq<AggStatRow>,
    new: Seq<AggStatRow>,
    d0: DatabaseV,
    interval: u64,
    now: u64,
    done: spec_fn((u64, u64, u64)) -> bool,
    done2: spec_fn((u64, u64, u64)) -> bool,
    kk: (u64, u64, u64),
)
    requires
        agg_state_ok(cur, d0, interval, now, done),
        agg_written(d0, interval, now, kk),
        has_agg_key(new, kk),
        agg_row_at(new, kk) == bucket_agg_row(
            stat_bucket(d0, kk.0, kk.1, interval),
            kk.0,
            kk.1,
            interval,
        ),
        forall|k: (u64, u64, u64)|
            k != kk ==> #[trigger] has_agg_key(new, k) == has_agg_key(cur, k),
        forall|k: (u64, u64, u64)|
            k != kk && has_agg_key(cur, k) ==> #[trigger] agg_row_at(new, k) == agg_row_at(cur, k),
        forall|k: (u64, u64, u64)| #[trigger] done2(k) == (done(k) || k == kk),
    ensures
        agg_state_ok(new, d0, interval, now, done2),
{
    assert forall|k: (u64, u64, u64)| #[trigger] has_agg_key(new, k) == (has_agg_key(
        d0.agg_stats,
        k,
    ) || (agg_written(d0, interval, now, k) && done2(k))) by {
        assert(done2(k) == (done(k) || k == kk));
        if k != kk {
            assert(has_agg_key(cur, k) == (has_agg_key(d0.agg_stats, k) || (agg_written(
                d0,
                interval,
                now,
                k,
            ) && done(k))));
        }
    }
    assert forall|k: (u64, u64, u64)| #[trigger] has_agg_key(new, k) implies agg_row_at(new, k)
        == (if agg_written(d0, interval, now, k) && done2(k) {
        bucket_agg_row(stat_bucket(d0, k.0, k.1, interval), k.0, k.1, interval)
    } else {
        agg_row_at(d0.agg_stats, k)
    }) by {
        assert(done2(k) == (done(k) || k == kk));
        if k != kk {
            assert(has_agg_key(cur, k) == (has_agg_key(d0.agg_stats, k) || (agg_written(
                d0,
                interval,
                now,
                k,
            ) && done(k))));
        }
    }
}

/// Widening the `done` set is sound where no newly-marked disk key is
/// written.
proof fn lemma_agg_disk_state_extend(
    cur: Seq<AggDiskRowV>,
    d0: DatabaseV,
    interval: u64,
    now: u64,
    done: spec_fn((u64, u64, u64, Seq<char>)) -> bool,
    done2: spec_fn((u64, u64, u64, Seq<char>)) -> bool,
)
    requires
        agg_disk_state_ok(cur, d0, interval, now, done),
        forall|k: (u64, u64, u64, Seq<char>)|
            #[trigger] done2(k) ==> done(k) || !agg_disk_written(d0, interval, now, k),
        forall|k: (u64, u64, u64, Seq<char>)| #[trigger] done(k) ==> done2(k),
    ensures
        agg_disk_state_ok(cur, d0, interval, now, done2),
{
    assert forall|k: (u64, u64, u64, Seq<char>)| #[trigger] has_agg_disk_key(cur, k) == (
    has_agg_disk_key(d0.agg_disk_stats, k) || (agg_disk_written(d0, interval, now, k) && done2(
        k,
    ))) by {
        assert(has_agg_disk_key(cur, k) == (has_agg_disk_key(d0.agg_disk_stats, k) || (
        agg_disk_written(d0, interval, now, k) && done(k))));
    }
}

/// Recording one freshly-folded disk row marks exactly its key as done.
proof fn lemma_agg_disk_state_upsert(
    cur: Seq<AggDiskRowV>,
    new: Seq<AggDiskRowV>,
    d0: DatabaseV,
    interval: u64,
    now: u64,
    done: spec_fn((u64, u64, u64, Seq<char>)) -> bool,
    done2: spec_fn((u64, u64, u64, Seq<char>)) -> bool,
    kk: (u64, u64, u64, Seq<char>),
)
    requires
        agg_disk_state_ok(cur, d0, interval, now, done),
        agg_disk_written(d0, interval, now, kk),
        has_agg_disk_key(new, kk),
        agg_disk_row_at(new, kk) == bucket_disk_row(
            mount_rows(disk_bucket(d0, kk.0, kk.1, interval), kk.3),
            kk.0,
            kk.1,
            interval,
            kk.3,
        ),
        forall|k: (u64, u64, u64, Seq<char>)|
            k != kk ==> #[trigger] has_agg_disk_key(new, k) == has_agg_disk_key(cur, k),
        forall|k: (u64, u64, u64, Seq<char>)|
            k != kk && has_agg_disk_key(cur, k) ==> #[trigger] agg_disk_row_at(new, k)
                == agg_disk_row_at(cur, k),
        forall|k: (u64, u64, u64, Seq<char>)| #[trigger] done2(k) == (done(k) || k == kk),
    ensures
        agg_disk_state_ok(new, d0, interval, now, done2),
{
    assert forall|k: (u64, u64, u64, Seq<char>)| #[trigger] has_agg_disk_key(new, k) == (
    has_agg_disk_key(d0.agg_disk_stats, k) || (agg_disk_written(d0, interval, now, k) && done2(
        k,
    ))) by {
        assert(done2(k) == (done(k) || k == kk));
        if k != kk {
            assert(has_agg_disk_key(cur, k) == (has_agg_disk_key(d0.agg_disk_stats, k) || (
            agg_disk_written(d0, interval, now, k) && done(k))));
        }
    }
    assert forall|k: (u64, u64, u64, Seq<char>)| #[trigger] has_agg_disk_key(new, k) implies
        agg_disk_row_at(new, k) == (if agg_disk_written(d0, interval, now, k) && done2(k) {
        bucket_disk_row(mount_rows(disk_bucket(d0, k.0, k.1, interval), k.3), k.0, k.1, interval, k.3)
    } else {
        agg_disk_row_at(d0.agg_disk_stats, k)
    }) by {
        assert(done2(k) == (done(k) || k == kk));
        if k != kk {
            assert(has_agg_disk_key(cur, k) == (has_agg_disk_key(d0.agg_disk_stats, k) || (
            agg_disk_written(d0, interval, now, k) && done(k))));
        }
    }
}


/// A row with tier `interval` exists exactly when a key with that tier
/// exists.
proof fn lemma_has_interval_via_keys(s: Seq<AggStatRow>, interval: u64)
    ensures
        has_agg_interval(s, interval) <==> exists|k: (u64, u64, u64)|
            #[trigger] has_agg_key(s, k) && k.2 == interval,
{
    if has_agg_interval(s, interval) {
        let i = choose|i: int| 0 <= i < s.len() && (#[trigger] s[i]).interval_minutes == interval;
        assert(has_agg_key(s, agg_key(s[i])));
    }
    if exists|k: (u64, u64, u64)| #[trigger] has_agg_key(s, k) && k.2 == interval {
        let k = choose|k: (u64, u64, u64)| #[trigger] has_agg_key(s, k) && k.2 == interval;
        let i = choose|i: int| 0 <= i < s.len() && agg_key(#[trigger] s[i]) == k;
        assert(s[i].interval_minutes == interval);
    }
}

/// Aggregation is idempotent: when the tier tables already reflect one full
/// pass at instant `now` over unchanged raw tables, a second pass at `now`
/// writes nothing new and changes no row.
///
/// `d1` is the store before the first pass, `d2` the store after it; the
/// conclusion says the tables of `d2` are exactly what a pass over `d2`
/// produces.
pub proof fn lemma_aggregate_idempotent(d1: DatabaseV, d2: DatabaseV, interval: u64, now: u64)
    requires
        0 < interval,
        interval * 60 <= u64::MAX,
        db_wf(d1),
        db_wf(d2),
        d2.hosts == d1.hosts,
        d2.stats == d1.stats,
        d2.disk_stats == d1.disk_stats,
        forall|k: (u64, u64, u64)|
            #[trigger] has_agg_key(d2.agg_stats, k) == (has_agg_key(d1.agg_stats, k)
                || agg_written(d1, interval, now, k)),
        forall|k: (u64, u64, u64)|
            #[trigger] has_agg_key(d2.agg_stats, k) ==> agg_row_at(d2.agg_stats, k) == (
            if agg_written(d1, interval, now, k) {
                bucket_agg_row(stat_bucket(d1, k.0, k.1, interval), k.0, k.1, interval)
            } else {
                agg_row_at(d1.agg_stats, k)
            }),
        forall|k: (u64, u64, u64, Seq<char>)|
            #[trigger] has_agg_disk_key(d2.agg_disk_stats, k) == (has_agg_disk_key(
                d1.agg_disk_stats,
                k,
            ) || agg_disk_written(d1, interval, now, k)),
        forall|k: (u64, u64, u64, Seq<char>)|
            #[trigger] has_agg_disk_key(d2.agg_disk_stats, k) ==> agg_disk_row_at(
                d2.agg_disk_stats,
                k,
            ) == (if agg_disk_written(d1, interval, now, k) {
                bucket_disk_row(
                    mount_rows(disk_bucket(d1, k.0, k.1, interval), k.3),
                    k.0,
                    k.1,
                    interval,
                    k.3,
                )
            } else {
                agg_disk_row_at(d1.agg_disk_stats, k)
            }),
    ensures
        forall|k: (u64, u64, u64)|
            #[trigger] agg_written(d2, interval, now, k) ==> has_agg_key(d2.agg_stats, k)
                && agg_row_at(d2.agg_stats, k) == bucket_agg_row(
                stat_bucket(d2, k.0, k.1, interval),
                k.0,
                k.1,
                interval,
            ),
        forall|k: (u64, u64, u64, Seq<char>)|
            #[trigger] agg_disk_written(d2, interval, now, k) ==> has_agg_disk_key(
                d2.agg_disk_stats,
                k,
            ) && agg_disk_row_at(d2.agg_disk_stats, k) == bucket_disk_row(
                mount_rows(disk_bucket(d2, k.0, k.1, interval), k.3),
                k.0,
                k.1,
                interval,
                k.3,
            ),
{
    let step = interval * 60;
    let end = floor_to(now, step as u64);
    // The second pass starts no earlier than the first.
    assert forall|k: (u64, u64, u64)| #[trigger] agg_written(d2, interval, now, k) implies
        agg_written(d1, interval, now, k) by {
        lemma_written_monotone(d1, d2, interval, now, k.1);
    }
    assert forall|k: (u64, u64, u64)| #[trigger] agg_written(d2, interval, now, k) implies
        has_agg_key(d2.agg_stats, k) && agg_row_at(d2.agg_stats, k) == bucket_agg_row(
        stat_bucket(d2, k.0, k.1, interval),
        k.0,
        k.1,
        interval,
    ) by {
        assert(agg_written(d1, interval, now, k));
        assert(has_agg_key(d2.agg_stats, k));
        assert(stat_bucket(d2, k.0, k.1, interval) == stat_bucket(d1, k.0, k.1, interval));
    }
    assert forall|k: (u64, u64, u64, Seq<char>)| #[trigger] agg_disk_written(
        d2,
        interval,
        now,
        k,
    ) implies has_agg_disk_key(d2.agg_disk_stats, k) && agg_disk_row_at(d2.agg_disk_stats, k)
        == bucket_disk_row(
        mount_rows(disk_bucket(d2, k.0, k.1, interval), k.3),
        k.0,
        k.1,
        interval,
        k.3,
    ) by {
        lemma_written_monotone(d1, d2, interval, now, k.1);
        assert(agg_disk_written(d1, interval, now, k));
        assert(has_agg_disk_key(d2.agg_disk_stats, k));
        assert(disk_bucket(d2, k.0, k.1, interval) == disk_bucket(d1, k.0, k.1, interval));
    }
}

/// Which keys a pass writes depends on the instant only through its bucket
/// floor.
proof fn lemma_written_time_eq(d: DatabaseV, interval: u64, n1: u64, n2: u64)
    requires
        0 < interval,
        interval * 60 <= u64::MAX,
        floor_to(n1, (interval * 60) as u64) == floor_to(n2, (interval * 60) as u64),
    ensures
        forall|k: (u64, u64, u64)|
            #[trigger] agg_written(d, interval, n1, k) == agg_written(d, interval, n2, k),
        forall|k: (u64, u64, u64, Seq<char>)|
            #[trigger] agg_disk_written(d, interval, n1, k) == agg_disk_written(d, interval, n2, k),
{
}

/// Aggregation is idempotent within a bucket: when the tier tables already
/// reflect one full pass at `now1` over unchanged raw tables, a pass at any
/// `now2` whose bucket floor is the same writes nothing new and changes no
/// row.
pub proof fn lemma_aggregate_idempotent_in_bucket(
    d1: DatabaseV,
    d2: DatabaseV,
    interval: u64,
    now1: u64,
    now2: u64,
)
    requires
        0 < interval,
        interval * 60 <= u64::MAX,
        floor_to(now1, (interval * 60) as u64) == floor_to(now2, (interval * 60) as u64),
        db_wf(d1),
        db_wf(d2),
        d2.hosts == d1.hosts,
        d2.stats == d1.stats,
        d2.disk_stats == d1.disk_stats,
        forall|k: (u64, u64, u64)|
            #[trigger] has_agg_key(d2.agg_stats, k) == (has_agg_key(d1.agg_stats, k)
                || agg_written(d1, interval, now1, k)),
        forall|k: (u64, u64, u64)|
            #[trigger] has_agg_key(d2.agg_stats, k) ==> agg_row_at(d2.agg_stats, k) == (
            if agg_written(d1, interval, now1, k) {
                bucket_agg_row(stat_bucket(d1, k.0, k.1, interval), k.0, k.1, interval)
            } else {
                agg_row_at(d1.agg_stats, k)
            }),
        forall|k: (u64, u64, u64, Seq<char>)|
            #[trigger] has_agg_disk_key(d2.agg_disk_stats, k) == (has_agg_disk_key(
                d1.agg_disk_stats,
                k,
            ) || agg_disk_written(d1, interval, now1, k)),
        forall|k: (u64, u64, u64, Seq<char>)|
            #[trigger] has_agg_disk_key(d2.agg_disk_stats, k) ==> agg_disk_row_at(
                d2.agg_disk_stats,
                k,
            ) == (if agg_disk_written(d1, interval, now1, k) {
                bucket_disk_row(
                    mount_rows(disk_bucket(d1, k.0, k.1, interval), k.3),
                    k.0,
                    k.1,
                    interval,
                    k.3,
                )
            } else {
                agg_disk_row_at(d1.agg_disk_stats, k)
            }),
    ensures
        forall|k: (u64, u64, u64)|
            #[trigger] agg_written(d2, interval, now2, k) ==> has_agg_key(d2.agg_stats, k)
                && agg_row_at(d2.agg_stats, k) == bucket_agg_row(
                stat_bucket(d2, k.0, k.1, interval),
                k.0,
                k.1,
                interval,
            ),
        forall|k: (u64, u64, u64, Seq<char>)|
            #[trigger] agg_disk_written(d2, interval, now2, k) ==> has_agg_disk_key(
                d2.agg_disk_stats,
                k,
            ) && agg_disk_row_at(d2.agg_disk_stats, k) == bucket_disk_row(
                mount_rows(disk_bucket(d2, k.0, k.1, interval), k.3),
                k.0,
                k.1,
                interval,
                k.3,
            ),
{
    lemma_written_time_eq(d1, interval, now1, now2);
    lemma_written_time_eq(d2, interval, now1, now2);
    lemma_aggregate_idempotent(d1, d2, interval, now2);
}

/// Any bucket the second pass would touch, the first pass already touched:
/// the second pass resumes at or after the first pass's start.
proof fn lemma_written_monotone(d1: DatabaseV, d2: DatabaseV, interval: u64, now: u64, t: u64)
    requires
        0 < interval,
        interval * 60 <= u64::MAX,
        db_wf(d1),
        db_wf(d2),
        d2.hosts == d1.hosts,
        d2.stats == d1.stats,
        d2.disk_stats == d1.disk_stats,
        forall|k: (u64, u64, u64)|
            #[trigger] has_agg_key(d2.agg_stats, k) == (has_agg_key(d1.agg_stats, k)
                || agg_written(d1, interval, now, k)),
        agg_start(d2, interval) is Some,
    ensures
        agg_start(d1, interval) is Some,
        agg_start(d1, interval)->0 <= agg_start(d2, interval)->0,
{
    let step = (interval * 60) as u64;
    let end = floor_to(now, step);
    lemma_floor_to(now, step);
    lemma_has_interval_via_keys(d1.agg_stats, interval);
    lemma_has_interval_via_keys(d2.agg_stats, interval);
    if has_agg_interval(d2.agg_stats, interval) {
        lemma_max_agg_ts_exists(d2.agg_stats, interval);
        let m2 = max_agg_ts(d2.agg_stats, interval);
        let i2 = choose|i: int|
            0 <= i < d2.agg_stats.len() && (#[trigger] d2.agg_stats[i]).interval_minutes
                == interval && d2.agg_stats[i].timestamp == m2;
        let kk = agg_key(d2.agg_stats[i2]);
        lemma_agg_row_at(d2.agg_stats, i2);
        assert(has_agg_key(d2.agg_stats, kk));
        assert(m2 as int % step as int == 0);
        if has_agg_key(d1.agg_stats, kk) {
            // the latest aggregated bucket already existed before the pass
            assert(has_agg_interval(d1.agg_stats, interval)) by {
                let j = choose|j: int|
                    0 <= j < d1.agg_stats.len() && agg_key(#[trigger] d1.agg_stats[j]) == kk;
                assert(d1.agg_stats[j].interval_minutes == interval);
            }
            lemma_max_agg_ts_exists(d1.agg_stats, interval);
            let m1 = max_agg_ts(d1.agg_stats, interval);
            assert(m2 <= m1 || m1 <= m2);
            assert(kk.1 == m2);
            let j = choose|j: int|
                0 <= j < d1.agg_stats.len() && agg_key(#[trigger] d1.agg_stats[j]) == kk;
            assert(d1.agg_stats[j].timestamp == m2);
            assert(m2 <= m1);
            assert(m1 as int % step as int == 0);
            // m1 <= m2 as well: d1's max row's key is still a key of d2
            let j1 = choose|i: int|
                0 <= i < d1.agg_stats.len() && (#[trigger] d1.agg_stats[i]).interval_minutes
                    == interval && d1.agg_stats[i].timestamp == m1;
            lemma_agg_row_at(d1.agg_stats, j1);
            let k1 = agg_key(d1.agg_stats[j1]);
            assert(has_agg_key(d2.agg_stats, k1));
            let j2 = choose|i: int|
                0 <= i < d2.agg_stats.len() && agg_key(#[trigger] d2.agg_stats[i]) == k1;
            assert(d2.agg_stats[j2].timestamp == m1 && d2.agg_stats[j2].interval_minutes
                == interval);
            assert(m1 <= m2);
            lemma_floor_aligned(m1, step);
            lemma_floor_aligned(m2, step);
        } else {
            // the latest aggregated bucket was written by the first pass
            assert(agg_written(d1, interval, now, kk));
            let s1 = agg_start(d1, interval)->0;
            assert(s1 <= kk.1);
            lemma_floor_aligned(m2, step);
            if has_agg_interval(d1.agg_stats, interval) {
                lemma_max_agg_ts_exists(d1.agg_stats, interval);
                let m1 = max_agg_ts(d1.agg_stats, interval);
                assert(m1 as int % step as int == 0);
                lemma_floor_aligned(m1, step);
                // d1's max is still present in d2, so m1 <= m2
                let j1 = choose|i: int|
                    0 <= i < d1.agg_stats.len() && (#[trigger] d1.agg_stats[i]).interval_minutes
                        == interval && d1.agg_stats[i].timestamp == m1;
                lemma_agg_row_at(d1.agg_stats, j1);
                let k1 = agg_key(d1.agg_stats[j1]);
                assert(has_agg_key(d2.agg_stats, k1));
                let j2 = choose|i: int|
                    0 <= i < d2.agg_stats.len() && agg_key(#[trigger] d2.agg_stats[i]) == k1;
                assert(d2.agg_stats[j2].timestamp == m1);
                assert(m1 <= m2);
            }
        }
    } else {
        // no tier rows in d2, hence none in d1 and nothing was written
        assert(!has_agg_interval(d1.agg_stats, interval)) by {
            if has_agg_interval(d1.agg_stats, interval) {
                let i = choose|i: int|
                    0 <= i < d1.agg_stats.len() && (#[trigger] d1.agg_stats[i]).interval_minutes
                        == interval;
                lemma_agg_row_at(d1.agg_stats, i);
                let kk = agg_key(d1.agg_stats[i]);
                assert(has_agg_key(d2.agg_stats, kk));
                let j = choose|j: int|
                    0 <= j < d2.agg_stats.len() && agg_key(#[trigger] d2.agg_stats[j]) == kk;
                assert(d2.agg_stats[j].interval_minutes == interval);
            }
        }
    }
}

/// An aligned value is its own bucket floor.
proof fn lemma_floor_aligned(t: u64, step: u64)
    requires
        step > 0,
        t as int % step as int == 0,
    ensures
        floor_to(t, step) == t,
{
    assert((t as int / step as int) * step as int == t as int) by (nonlinear_arith)
        requires
            step > 0,
            t >= 0,
            t as int % step as int == 0,
    ;
}


/// A range query returns at most this many points per host.
pub const MAX_POINTS: usize = 600;

/// One disk data point handed back by a range query.
pub struct DiskRecord {
    pub timestamp: u64,
    pub mount_point: String,
    pub total: u64,
    pub used: u64,
}

/// Mathematical image of a [`DiskRecord`].
pub struct DiskRecordV {
    pub timestamp: u64,
    pub mount_point: Seq<char>,
    pub total: u64,
    pub used: u64,
}

impl View for DiskRecord {
    type V = DiskRecordV;

    open spec fn view(&self) -> DiskRecordV {
        DiskRecordV {
            timestamp: self.timestamp,
            mount_point: self.mount_point@,
            total: self.total,
            used: self.used,
        }
    }
}

impl DeepView for DiskRecord {
    type V = DiskRecordV;

    open spec fn deep_view(&self) -> DiskRecordV {
        self.view()
    }
}

/// One sample data point handed back by a range query, with its disks.
pub struct HostStatRecord {
    pub timestamp: u64,
    pub alias: String,
    pub cpu: u64,
    pub memory_total: u64,
    pub memory_used: u64,
    pub network_in: u64,
    pub network_out: u64,
    pub network_in_speed: u64,
    pub network_out_speed: u64,
    pub online: bool,
    pub disks: Vec<DiskRecord>,
}

/// Mathematical image of a [`HostStatRecord`].
pub struct HostStatRecordV {
    pub timestamp: u64,
    pub alias: Seq<char>,
    pub cpu: u64,
    pub memory_total: u64,
    pub memory_used: u64,
    pub network_in: u64,
    pub network_out: u64,
    pub network_in_speed: u64,
    pub network_out_speed: u64,
    pub online: bool,
    pub disks: Seq<DiskRecordV>,
}

impl View for HostStatRecord {
    type V = HostStatRecordV;

    open spec fn view(&self) -> HostStatRecordV {
        HostStatRecordV {
            timestamp: self.timestamp,
            alias: self.alias@,
            cpu: self.cpu,
            memory_total: self.memory_total,
            memory_used: self.memory_used,
            network_in: self.network_in,
            network_out: self.network_out,
            network_in_speed: self.network_in_speed,
            network_out_speed: self.network_out_speed,
            online: self.online,
            disks: self.disks.deep_view(),
        }
    }
}

impl DeepView for HostStatRecord {
    type V = HostStatRecordV;

    open spec fn deep_view(&self) -> HostStatRecordV {
        self.view()
    }
}

/// One host's slice of a range query result.
pub struct HostSeries {
    pub name: String,
    pub records: Vec<HostStatRecord>,
}

/// Mathematical image of a [`HostSeries`].
pub struct HostSeriesV {
    pub name: Seq<char>,
    pub records: Seq<HostStatRecordV>,
}

impl View for HostSeries {
    type V = HostSeriesV;

    open spec fn view(&self) -> HostSeriesV {
        HostSeriesV { name: self.name@, records: self.records.deep_view() }
    }
}

impl DeepView for HostSeries {
    type V = HostSeriesV;

    open spec fn deep_view(&self) -> HostSeriesV {
        self.view()
    }
}

/// The aggregation tier a query of width `span` seconds is served from:
/// wider ranges take coarser tiers, anything under an hour takes raw rows.
pub open spec fn select_tier(span: int) -> u64 {
    if span > 3 * 24 * 3600 {
        60
    } else if span >= 24 * 3600 {
        30
    } else if span >= 12 * 3600 {
        15
    } else if span >= 3600 {
        5
    } else {
        0
    }
}

/// At most `MAX_POINTS` leading elements of a result sequence.
pub open spec fn limited<T>(s: Seq<T>) -> Seq<T> {
    if s.len() <= MAX_POINTS {
        s
    } else {
        s.take(MAX_POINTS as int)
    }
}

/// Host `id`'s raw rows inside the closed query range.
pub open spec fn raw_rows_of(d: DatabaseV, id: u64, start: u64, end: u64) -> Seq<StatRow> {
    d.stats.filter(|r: StatRow| r.host_id == id && start <= r.timestamp && r.timestamp <= end)
}

/// Host `id`'s raw disk rows at exactly timestamp `ts`, in table order.
pub open spec fn raw_disks_at(d: DatabaseV, id: u64, ts: u64) -> Seq<DiskRowV> {
    d.disk_stats.filter(|r: DiskRowV| r.host_id == id && r.timestamp == ts)
}

/// The query record one raw row yields.
pub open spec fn raw_record(d: DatabaseV, h: HostRowV, r: StatRow) -> HostStatRecordV {
    HostStatRecordV {
        timestamp: r.timestamp,
        alias: h.alias,
        cpu: r.cpu,
        memory_total: r.memory_total,
        memory_used: r.memory_used,
        network_in: r.network_in,
        network_out: r.network_out,
        network_in_speed: r.network_in_speed,
        network_out_speed: r.network_out_speed,
        online: r.online,
        disks: raw_disks_at(d, h.id, r.timestamp).map_values(
            |x: DiskRowV|
                DiskRecordV {
                    timestamp: x.timestamp,
                    mount_point: x.mount_point,
                    total: x.total,
                    used: x.used,
                },
        ),
    }
}

/// Host `id`'s aggregated rows of tier `tier` inside the closed query range.
pub open spec fn agg_rows_of(d: DatabaseV, id: u64, tier: u64, start: u64, end: u64) -> Seq<
    AggStatRow,
> {
    d.agg_stats.filter(
        |r: AggStatRow|
            r.host_id == id && r.interval_minutes == tier && start <= r.timestamp && r.timestamp
                <= end,
    )
}

/// Host `id`'s aggregated disk rows of tier `tier` at exactly timestamp `ts`.
pub open spec fn agg_disks_at(d: DatabaseV, id: u64, tier: u64, ts: u64) -> Seq<AggDiskRowV> {
    d.agg_disk_stats.filter(
        |r: AggDiskRowV| r.host_id == id && r.interval_minutes == tier && r.timestamp == ts,
    )
}

/// The query record one aggregated row yields.
pub open spec fn agg_record(d: DatabaseV, h: HostRowV, r: AggStatRow, tier: u64) -> HostStatRecordV {
    HostStatRecordV {
        timestamp: r.timestamp,
        alias: h.alias,
        cpu: r.cpu,
        memory_total: r.memory_total,
        memory_used: r.memory_used,
        network_in: r.network_in,
        network_out: r.network_out,
        network_in_speed: r.network_in_speed,
        network_out_speed: r.network_out_speed,
        online: r.online,
        disks: agg_disks_at(d, h.id, tier, r.timestamp).map_values(
            |x: AggDiskRowV|
                DiskRecordV {
                    timestamp: x.timestamp,
                    mount_point: x.mount_point,
                    total: x.total,
                    used: x.used,
                },
        ),
    }
}

/// The records a range query hands back for one host: the selected tier where
/// it already holds rows for the range, otherwise the raw table (the
/// freshness fallback), capped at `MAX_POINTS` points, ascending by
/// timestamp.
pub open spec fn records_of(d: DatabaseV, h: HostRowV, start: u64, end: u64) -> Seq<
    HostStatRecordV,
> {
    let tier = select_tier(end - start);
    if tier > 0 && agg_rows_of(d, h.id, tier, start, end).len() > 0 {
        limited(agg_rows_of(d, h.id, tier, start, end)).map_values(
            |r: AggStatRow| agg_record(d, h, r, tier),
        )
    } else {
        limited(raw_rows_of(d, h.id, start, end)).map_values(|r: StatRow| raw_record(d, h, r))
    }
}

/// The slice of a range query one host contributes: nothing unless the host
/// has raw rows in the range.
pub open spec fn host_entry(d: DatabaseV, h: HostRowV, start: u64, end: u64) -> Seq<HostSeriesV> {
    if raw_rows_of(d, h.id, start, end).len() == 0 {
        Seq::empty()
    } else {
        seq![HostSeriesV { name: h.name, records: records_of(d, h, start, end) }]
    }
}

/// A whole range query: one slice per host with raw rows in range, in host
/// table order.
pub open spec fn query_spec(d: DatabaseV, hosts: Seq<HostRowV>, start: u64, end: u64) -> Seq<
    HostSeriesV,
>
    decreases hosts.len(),
{
    if hosts.len() == 0 {
        Seq::empty()
    } else {
        query_spec(d, hosts.drop_last(), start, end) + host_entry(d, hosts.last(), start, end)
    }
}



/// The tier tables reflect one full aggregation pass for `interval` at
/// instant `n` over the old store.
pub open spec fn one_pass_ok(
    new_stats: Seq<AggStatRow>,
    new_disks: Seq<AggDiskRowV>,
    d_old: DatabaseV,
    interval: u64,
    n: u64,
) -> bool {
    agg_state_ok(new_stats, d_old, interval, n, |k: (u64, u64, u64)| true) && agg_disk_state_ok(
        new_disks,
        d_old,
        interval,
        n,
        |k: (u64, u64, u64, Seq<char>)| true,
    )
}


/// The raw tables of `new` are those of `old` minus rows older than the
/// retention cutoff taken at instant `n`.
pub open spec fn pruned_at(new: DatabaseV, old: DatabaseV, retention_days: u64, n: u64) -> bool {
    new.stats == old.stats.filter(|x: StatRow| x.timestamp >= prune_cutoff(n, retention_days))
        && new.disk_stats == old.disk_stats.filter(
        |d: DiskRowV| d.timestamp >= prune_cutoff(n, retention_days),
    )
}

/// Every aggregated row, sample or disk, sits exactly on a boundary of its
/// tier's bucket width: its timestamp modulo `interval_minutes * 60` is zero.
pub proof fn lemma_bucket_alignment(d: DatabaseV)
    requires
        db_wf(d),
    ensures
        forall|i: int|
            0 <= i < d.agg_stats.len() ==> agg_aligned(
                (#[trigger] d.agg_stats[i]).timestamp,
                d.agg_stats[i].interval_minutes,
            ),
        forall|i: int|
            0 <= i < d.agg_disk_stats.len() ==> agg_aligned(
                (#[trigger] d.agg_disk_stats[i]).timestamp,
                d.agg_disk_stats[i].interval_minutes,
            ),
{
}

impl Database {
    /// An empty store.
    pub fn new() -> (res: Database)
        ensures
            db_wf(res@),
            res@.hosts.len() == 0,
            res@.stats.len() == 0,
            res@.disk_stats.len() == 0,
            res@.agg_stats.len() == 0,
            res@.agg_disk_stats.len() == 0,
            res@.last_network.len() == 0,
    {
        Database {
            hosts: Vec::new(),
            stats: Vec::new(),
            disk_stats: Vec::new(),
            agg_stats: Vec::new(),
            agg_disk_stats: Vec::new(),
            last_network: Vec::new(),
        }
    }

    /// Look a host up by name; `Some(id)` names the unique row carrying it.
    fn find_host_id(&self, name: &str) -> (r: Option<u64>)
        requires
            db_wf(self@),
        ensures
            match r {
                Some(id) => has_host(self@.hosts, name@) && 1 <= id <= self@.hosts.len()
                    && self@.hosts[id - 1].name == name@ && self@.hosts[host_idx(
                    self@.hosts,
                    name@,
                )].id == id,
                None => !has_host(self@.hosts, name@),
            },
    {
        let n = self.hosts.len();
        let mut i: usize = 0;
        while i < n
            invariant
                db_wf(self@),
                n == self@.hosts.len(),
                i <= n,
                forall|j: int| 0 <= j < i ==> (#[trigger] self@.hosts[j]).name != name@,
            decreases n - i,
        {
            if str_eq(self.hosts[i].name.as_str(), name) {
                proof {
                    assert(self@.hosts[i as int].name == name@);
                    assert(has_host(self@.hosts, name@));
                    let k = host_idx(self@.hosts, name@);
                    if k != i {
                        assert(self@.hosts[k].name == self@.hosts[i as int].name);
                    }
                }
                return Some(self.hosts[i].id);
            }
            i = i + 1;
        }
        None
    }

    /// Create the host row on first sight; refresh the alias in place when a
    /// non-empty one arrives. Never deletes.
    pub fn ensure_host_exists(&mut self, name: &str, alias: &str) -> (id: u64)
        requires
            db_wf(old(self)@),
            old(self)@.hosts.len() < u64::MAX || has_host(old(self)@.hosts, name@),
        ensures
            db_wf(final(self)@),
            final(self)@.hosts == hosts_after_ensure(old(self)@.hosts, name@, alias@),
            id == ensured_id(old(self)@.hosts, name@),
            final(self)@.stats == old(self)@.stats,
            final(self)@.disk_stats == old(self)@.disk_stats,
            final(self)@.agg_stats == old(self)@.agg_stats,
            final(self)@.agg_disk_stats == old(self)@.agg_disk_stats,
            final(self)@.last_network == old(self)@.last_network,
    {
        let n = self.hosts.len();
        let mut i: usize = 0;
        while i < n
            invariant
                db_wf(self@),
                *self == *old(self),
                n == self@.hosts.len(),
                i <= n,
                forall|j: int| 0 <= j < i ==> (#[trigger] self@.hosts[j]).name != name@,
            decreases n - i,
        {
            if str_eq(self.hosts[i].name.as_str(), name) {
                proof {
                    assert(self@.hosts[i as int].name == name@);
                    assert(has_host(self@.hosts, name@));
                    let k = host_idx(self@.hosts, name@);
                    if k != i {
                        assert(self@.hosts[k].name == self@.hosts[i as int].name);
                    }
                    assert(host_idx(self@.hosts, name@) == i);
                }
                let id = self.hosts[i].id;
                if alias.unicode_len() > 0 {
                    let row = HostRow {
                        id,
                        name: self.hosts[i].name.clone(),
                        alias: String::from_str(alias),
                    };
                    self.hosts[i] = row;
                    proof {
                        assert(self@.hosts =~= hosts_after_ensure(
                            old(self)@.hosts,
                            name@,
                            alias@,
                        ));
                        assert forall|a: int| 0 <= a < self@.hosts.len() implies (#[trigger] self@.hosts[a]).id
                            == a + 1 && self@.hosts[a].name == old(self)@.hosts[a].name by {
                            assert(old(self)@.hosts[a].id == a + 1);
                        }
                        assert(self@.stats == old(self)@.stats);
                        assert(self@.disk_stats == old(self)@.disk_stats);
                        assert(self@.agg_stats == old(self)@.agg_stats);
                        assert(self@.agg_disk_stats == old(self)@.agg_disk_stats);
                        assert(self@.last_network == old(self)@.last_network);
                        assert(db_wf(old(self)@));
                        assert(db_wf(self@));
                    }
                } else {
                    proof {
                        assert(self@.hosts =~= hosts_after_ensure(
                            old(self)@.hosts,
                            name@,
                            alias@,
                        ));
                    }
                }
                return id;
            }
            i = i + 1;
        }
        let id = (n as u64) + 1;
        let row = HostRow { id, name: String::from_str(name), alias: String::from_str(alias) };
        self.hosts.push(row);
        proof {
            assert(!has_host(old(self)@.hosts, name@));
            assert(self@.hosts =~= hosts_after_ensure(old(self)@.hosts, name@, alias@));
            assert forall|a: int, b: int| 0 <= a < b < self@.hosts.len() implies (
            #[trigger] self@.hosts[a]).name != (#[trigger] self@.hosts[b]).name by {
                if b < n {
                    assert(old(self)@.hosts[a].name != old(self)@.hosts[b].name);
                } else {
                    assert(old(self)@.hosts[a].name != name@);
                }
            }
            assert forall|a: int| 0 <= a < self@.hosts.len() implies (#[trigger] self@.hosts[a]).id
                == a + 1 by {
                if a < n {
                    assert(old(self)@.hosts[a].id == a + 1);
                }
            }
            assert(self@.stats == old(self)@.stats);
            assert(self@.disk_stats == old(self)@.disk_stats);
            assert(self@.agg_stats == old(self)@.agg_stats);
            assert(self@.agg_disk_stats == old(self)@.agg_disk_stats);
            assert(self@.last_network == old(self)@.last_network);
            assert(db_wf(old(self)@));
            assert(db_wf(self@));
        }
        id
    }

    /// The position of host `id`'s counter-anchor row, if one exists.
    fn find_last_net_pos(&self, id: u64) -> (r: Option<usize>)
        requires
            db_wf(self@),
        ensures
            match r {
                Some(p) => p < self@.last_network.len() && self@.last_network[p as int].host_id
                    == id && last_net_idx(self@.last_network, id) == p,
                None => !has_last_net(self@.last_network, id),
            },
    {
        let n = self.last_network.len();
        let mut i: usize = 0;
        while i < n
            invariant
                db_wf(self@),
                n == self@.last_network.len(),
                i <= n,
                forall|j: int| 0 <= j < i ==> (#[trigger] self@.last_network[j]).host_id != id,
            decreases n - i,
        {
            if self.last_network[i].host_id == id {
                proof {
                    assert(has_last_net(self@.last_network, id));
                    let k = last_net_idx(self@.last_network, id);
                    if k != i {
                        assert(self@.last_network[k].host_id == id);
                    }
                }
                return Some(i);
            }
            i = i + 1;
        }
        None
    }

    /// Record host `host_name`'s most recent cumulative counters, inserting or
    /// updating its unique anchor row; `HostNotFound` when no host row carries
    /// that name yet.
    pub fn update_last_network(
        &mut self,
        host_name: &str,
        network_in: u64,
        network_out: u64,
        now: u64,
    ) -> (r: Result<(), StoreError>)
        requires
            db_wf(old(self)@),
        ensures
            db_wf(final(self)@),
            final(self)@.hosts == old(self)@.hosts,
            final(self)@.stats == old(self)@.stats,
            final(self)@.disk_stats == old(self)@.disk_stats,
            final(self)@.agg_stats == old(self)@.agg_stats,
            final(self)@.agg_disk_stats == old(self)@.agg_disk_stats,
            !has_host(old(self)@.hosts, host_name@) ==> r == Result::<(), StoreError>::Err(
                StoreError::HostNotFound,
            ) && final(self)@.last_network == old(self)@.last_network,
            has_host(old(self)@.hosts, host_name@) ==> {
                let id = old(self)@.hosts[host_idx(old(self)@.hosts, host_name@)].id;
                let row = LastNetworkRow { host_id: id, network_in, network_out, updated_at: now };
                &&& r is Ok
                &&& if has_last_net(old(self)@.last_network, id) {
                    final(self)@.last_network == old(self)@.last_network.update(
                        last_net_idx(old(self)@.last_network, id),
                        row,
                    )
                } else {
                    final(self)@.last_network == old(self)@.last_network.push(row)
                }
            },
    {
        let found = self.find_host_id(host_name);
        match found {
            None => Err(StoreError::HostNotFound),
            Some(id) => {
                let row = LastNetworkRow { host_id: id, network_in, network_out, updated_at: now };
                match self.find_last_net_pos(id) {
                    Some(p) => {
                        self.last_network[p] = row;
                        proof {
                            assert forall|a: int, b: int|
                                0 <= a < b < self@.last_network.len() implies (
                            #[trigger] self@.last_network[a]).host_id != (
                            #[trigger] self@.last_network[b]).host_id by {
                                assert(old(self)@.last_network[a].host_id != old(
                                    self,
                                )@.last_network[b].host_id);
                                assert(old(self)@.last_network[p as int].host_id == id);
                            }
                            assert(self@.hosts == old(self)@.hosts);
                            assert(self@.stats == old(self)@.stats);
                            assert(self@.disk_stats == old(self)@.disk_stats);
                            assert(self@.agg_stats == old(self)@.agg_stats);
                            assert(self@.agg_disk_stats == old(self)@.agg_disk_stats);
                            assert(db_wf(old(self)@));
                            assert(db_wf(self@));
                        }
                    },
                    None => {
                        let n = self.last_network.len();
                        self.last_network.push(row);
                        proof {
                            assert forall|a: int, b: int|
                                0 <= a < b < self@.last_network.len() implies (
                            #[trigger] self@.last_network[a]).host_id != (
                            #[trigger] self@.last_network[b]).host_id by {
                                if b < n {
                                    assert(old(self)@.last_network[a].host_id != old(
                                        self,
                                    )@.last_network[b].host_id);
                                } else {
                                    assert(old(self)@.last_network[a].host_id != id);
                                }
                            }
                            assert(self@.hosts == old(self)@.hosts);
                            assert(self@.stats == old(self)@.stats);
                            assert(self@.disk_stats == old(self)@.disk_stats);
                            assert(self@.agg_stats == old(self)@.agg_stats);
                            assert(self@.agg_disk_stats == old(self)@.agg_disk_stats);
                            assert(db_wf(old(self)@));
                            assert(db_wf(self@));
                        }
                    },
                }
                Ok(())
            },
        }
    }

    /// Insert a raw sample row, keeping the table ordered by timestamp;
    /// among equal timestamps the new row goes last.
    fn insert_stat_sorted(&mut self, row: StatRow)
        requires
            db_wf(old(self)@),
        ensures
            db_wf(final(self)@),
            final(self)@.stats == stats_after_insert(old(self)@.stats, row),
            final(self)@.hosts == old(self)@.hosts,
            final(self)@.disk_stats == old(self)@.disk_stats,
            final(self)@.agg_stats == old(self)@.agg_stats,
            final(self)@.agg_disk_stats == old(self)@.agg_disk_stats,
            final(self)@.last_network == old(self)@.last_network,
    {
        let n = self.stats.len();
        let mut p: usize = n;
        while p > 0 && self.stats[p - 1].timestamp > row.timestamp
            invariant
                db_wf(self@),
                n == self@.stats.len(),
                p <= n,
                forall|j: int| p <= j < n ==> (#[trigger] self@.stats[j]).timestamp > row.timestamp,
            decreases p,
        {
            p = p - 1;
        }
        proof {
            let stats = self@.stats;
            let pred = |r: StatRow| r.timestamp <= row.timestamp;
            assert forall|j: int| 0 <= j < p implies pred(#[trigger] stats[j]) by {
                assert(stats[j].timestamp <= stats[p - 1].timestamp);
            }
            lemma_sorted_prefix_filter_len(stats, pred, p as int);
        }
        self.stats.insert(p, row);
        proof {
            let stats = old(self)@.stats;
            assert forall|a: int, b: int| 0 <= a < b < self@.stats.len() implies (
            #[trigger] self@.stats[a]).timestamp <= (#[trigger] self@.stats[b]).timestamp by {
                let aa = if a < p { a } else { a - 1 };
                let bb = if b < p { b } else { b - 1 };
                if a == p {
                } else if b == p {
                } else {
                    assert(stats[aa].timestamp <= stats[bb].timestamp);
                }
            }
            assert(self@.hosts == old(self)@.hosts);
            assert(self@.disk_stats == old(self)@.disk_stats);
            assert(self@.agg_stats == old(self)@.agg_stats);
            assert(self@.agg_disk_stats == old(self)@.agg_disk_stats);
            assert(self@.last_network == old(self)@.last_network);
            assert(db_wf(old(self)@));
            assert(db_wf(self@));
        }
    }

    /// Insert a per-disk row, keeping the table ordered by timestamp and
    /// mount point; among equal keys the new row goes last.
    fn insert_disk_sorted(&mut self, row: DiskRow)
        requires
            db_wf(old(self)@),
        ensures
            db_wf(final(self)@),
            final(self)@.disk_stats == disks_after_insert1(old(self)@.disk_stats, row@),
            final(self)@.hosts == old(self)@.hosts,
            final(self)@.stats == old(self)@.stats,
            final(self)@.agg_stats == old(self)@.agg_stats,
            final(self)@.agg_disk_stats == old(self)@.agg_disk_stats,
            final(self)@.last_network == old(self)@.last_network,
    {
        let ghost rv = row@;
        let n = self.disk_stats.len();
        let mut p: usize = n;
        while p > 0 && !disk_le(&self.disk_stats[p - 1], &row)
            invariant
                db_wf(self@),
                n == self@.disk_stats.len(),
                p <= n,
                row@ == rv,
                forall|j: int| p <= j < n ==> !disk_key_le(#[trigger] self@.disk_stats[j], rv),
            decreases p,
        {
            p = p - 1;
        }
        proof {
            let table = self@.disk_stats;
            let pred = |d: DiskRowV| disk_key_le(d, rv);
            assert forall|j: int| 0 <= j < p implies pred(#[trigger] table[j]) by {
                assert(disk_key_le(table[p - 1], rv));
                if j < p - 1 {
                    assert(disk_key_le(table[j], table[p - 1]));
                    lemma_disk_key_le_trans(table[j], table[p - 1], rv);
                }
            }
            assert forall|j: int| p <= j < n implies !pred(#[trigger] table[j]) by {}
            lemma_sorted_prefix_filter_len(table, pred, p as int);
        }
        self.disk_stats.insert(p, row);
        proof {
            let table = old(self)@.disk_stats;
            assert(self@.disk_stats =~= disks_after_insert1(table, rv));
            assert forall|a: int, b: int| 0 <= a < b < self@.disk_stats.len() implies disk_key_le(
                #[trigger] self@.disk_stats[a],
                #[trigger] self@.disk_stats[b],
            ) by {
                let aa = if a < p { a } else { a - 1 };
                let bb = if b < p { b } else { b - 1 };
                if a == p {
                    assert(!disk_key_le(table[bb], rv));
                    lemma_disk_key_le_total(table[bb], rv);
                } else if b == p {
                    assert(disk_key_le(table[aa], rv));
                } else {
                    assert(disk_key_le(table[aa], table[bb]));
                }
            }
            assert(self@.hosts == old(self)@.hosts);
            assert(self@.stats == old(self)@.stats);
            assert(self@.agg_stats == old(self)@.agg_stats);
            assert(self@.agg_disk_stats == old(self)@.agg_disk_stats);
            assert(self@.last_network == old(self)@.last_network);
            assert(db_wf(old(self)@));
            assert(db_wf(self@));
        }
    }

    /// One write transaction of the original pipeline: make sure the host row
    /// exists, then append the raw sample row and one row per reported disk.
    pub fn save_stat(&mut self, stat: &HostStat) -> (r: Result<(), StoreError>)
        requires
            db_wf(old(self)@),
            old(self)@.hosts.len() < u64::MAX || has_host(old(self)@.hosts, stat@.name),
        ensures
            db_wf(final(self)@),
            r is Ok,
            final(self)@.hosts == hosts_after_ensure(old(self)@.hosts, stat@.name, stat@.alias),
            final(self)@.stats == stats_after_insert(
                old(self)@.stats,
                stat_row_of(stat@, ensured_id(old(self)@.hosts, stat@.name)),
            ),
            final(self)@.disk_stats == disks_after_inserts(
                old(self)@.disk_stats,
                stat@.disks,
                ensured_id(old(self)@.hosts, stat@.name),
                stat@.latest_ts,
            ),
            final(self)@.agg_stats == old(self)@.agg_stats,
            final(self)@.agg_disk_stats == old(self)@.agg_disk_stats,
            final(self)@.last_network == old(self)@.last_network,
    {
        let id = self.ensure_host_exists(stat.name.as_str(), stat.alias.as_str());
        let row = StatRow {
            host_id: id,
            timestamp: stat.latest_ts,
            cpu: stat.cpu,
            memory_total: stat.memory_total,
            memory_used: stat.memory_used,
            network_in: stat.network_in,
            network_out: stat.network_out,
            network_in_speed: stat.network_rx,
            network_out_speed: stat.network_tx,
            online: stat.online4 || stat.online6,
        };
        self.insert_stat_sorted(row);
        let ts = stat.latest_ts;
        let ghost d0 = self@;
        let nd = stat.disks.len();
        let mut i: usize = 0;
        while i < nd
            invariant
                db_wf(self@),
                nd == stat@.disks.len(),
                i <= nd,
                self@.hosts == d0.hosts,
                self@.stats == d0.stats,
                self@.agg_stats == d0.agg_stats,
                self@.agg_disk_stats == d0.agg_disk_stats,
                self@.last_network == d0.last_network,
                self@.disk_stats == disks_after_inserts(
                    d0.disk_stats,
                    stat@.disks.take(i as int),
                    id,
                    ts,
                ),
            decreases nd - i,
        {
            let drow = DiskRow {
                host_id: id,
                timestamp: ts,
                mount_point: stat.disks[i].mount_point.clone(),
                total: stat.disks[i].total,
                used: stat.disks[i].used,
            };
            proof {
                assert(drow@ == disk_row_of(stat@.disks[i as int], id, ts));
            }
            self.insert_disk_sorted(drow);
            proof {
                assert(stat@.disks.take(i as int + 1).drop_last() =~= stat@.disks.take(i as int));
                assert(stat@.disks.take(i as int + 1).last() == stat@.disks[i as int]);
            }
            i = i + 1;
        }
        proof {
            assert(stat@.disks.take(nd as int) =~= stat@.disks);
        }
        Ok(())
    }

    /// Read every host's stored counter anchor, joined with its host name,
    /// in table order.
    pub fn get_last_network_data(&self) -> (r: Vec<(String, u64, u64)>)
        requires
            db_wf(self@),
        ensures
            r@.len() == last_net_join(self@.last_network, self@.hosts).len(),
            forall|k: int|
                0 <= k < r@.len() ==> {
                    let e = last_net_join(self@.last_network, self@.hosts)[k];
                    (#[trigger] r@[k]).0@ == e.0 && r@[k].1 == e.1 && r@[k].2 == e.2
                },
    {
        let mut out: Vec<(String, u64, u64)> = Vec::new();
        let n = self.last_network.len();
        let mut i: usize = 0;
        while i < n
            invariant
                db_wf(self@),
                n == self@.last_network.len(),
                i <= n,
                out@.len() == last_net_join(self@.last_network.take(i as int), self@.hosts).len(),
                forall|k: int|
                    0 <= k < out@.len() ==> {
                        let e = last_net_join(self@.last_network.take(i as int), self@.hosts)[k];
                        (#[trigger] out@[k]).0@ == e.0 && out@[k].1 == e.1 && out@[k].2 == e.2
                    },
            decreases n - i,
        {
            let ghost pre = self@.last_network.take(i as int);
            let row = self.last_network[i];
            let hid = row.host_id;
            if 1 <= hid && hid <= self.hosts.len() as u64 {
                let name = self.hosts[(hid - 1) as usize].name.clone();
                out.push((name, row.network_in, row.network_out));
            }
            proof {
                assert(self@.last_network.take(i as int + 1).drop_last() =~= pre);
                assert(self@.last_network.take(i as int + 1).last() == self@.last_network[i as int]);
            }
            i = i + 1;
        }
        proof {
            assert(self@.last_network.take(n as int) =~= self@.last_network);
        }
        out
    }

    /// Delete raw sample and disk rows older than the retention window; the
    /// aggregated tiers are never pruned. Returns how many rows went away.
    pub fn cleanup_old_data_at(&mut self, retention_days: u64, now: u64) -> (r: usize)
        requires
            db_wf(old(self)@),
            old(self)@.stats.len() + old(self)@.disk_stats.len() <= usize::MAX,
        ensures
            db_wf(final(self)@),
            final(self)@.hosts == old(self)@.hosts,
            final(self)@.agg_stats == old(self)@.agg_stats,
            final(self)@.agg_disk_stats == old(self)@.agg_disk_stats,
            final(self)@.last_network == old(self)@.last_network,
            final(self)@.stats == old(self)@.stats.filter(
                |x: StatRow| x.timestamp >= prune_cutoff(now, retention_days),
            ),
            final(self)@.disk_stats == old(self)@.disk_stats.filter(
                |d: DiskRowV| d.timestamp >= prune_cutoff(now, retention_days),
            ),
            r == old(self)@.stats.len() - final(self)@.stats.len() + old(
                self,
            )@.disk_stats.len() - final(self)@.disk_stats.len(),
    {
        let window: u64 = if retention_days > u64::MAX / 86400 {
            u64::MAX
        } else {
            retention_days * 86400
        };
        let cutoff: u64 = if now >= window {
            now - window
        } else {
            0
        };
        proof {
            assert(cutoff == prune_cutoff(now, retention_days));
        }
        let ghost spred = |x: StatRow| x.timestamp >= prune_cutoff(now, retention_days);
        let ghost dpred = |d: DiskRowV| d.timestamp >= prune_cutoff(now, retention_days);

        let mut kept_stats: Vec<StatRow> = Vec::new();
        let ns = self.stats.len();
        let mut i: usize = 0;
        while i < ns
            invariant
                db_wf(self@),
                ns == self@.stats.len(),
                i <= ns,
                cutoff == prune_cutoff(now, retention_days),
                spred == (|x: StatRow| x.timestamp >= prune_cutoff(now, retention_days)),
                kept_stats@ == self@.stats.take(i as int).filter(spred),
            decreases ns - i,
        {
            let ghost pre = self@.stats.take(i as int);
            let row = self.stats[i];
            if row.timestamp >= cutoff {
                kept_stats.push(row);
            }
            proof {
                reveal(Seq::filter);
                assert(self@.stats.take(i as int + 1).drop_last() =~= pre);
                assert(self@.stats.take(i as int + 1).last() == self@.stats[i as int]);
            }
            i = i + 1;
        }
        proof {
            assert(self@.stats.take(ns as int) =~= self@.stats);
        }

        let mut kept_disks: Vec<DiskRow> = Vec::new();
        let nd = self.disk_stats.len();
        let mut j: usize = 0;
        while j < nd
            invariant
                db_wf(self@),
                nd == self@.disk_stats.len(),
                j <= nd,
                cutoff == prune_cutoff(now, retention_days),
                dpred == (|d: DiskRowV| d.timestamp >= prune_cutoff(now, retention_days)),
                kept_disks.deep_view() == self@.disk_stats.take(j as int).filter(dpred),
            decreases nd - j,
        {
            let ghost pre = self@.disk_stats.take(j as int);
            let keep = self.disk_stats[j].timestamp >= cutoff;
            if keep {
                let row = DiskRow {
                    host_id: self.disk_stats[j].host_id,
                    timestamp: self.disk_stats[j].timestamp,
                    mount_point: self.disk_stats[j].mount_point.clone(),
                    total: self.disk_stats[j].total,
                    used: self.disk_stats[j].used,
                };
                proof {
                    assert(row@ == self@.disk_stats[j as int]);
                }
                kept_disks.push(row);
            }
            proof {
                reveal(Seq::filter);
                assert(self@.disk_stats.take(j as int + 1).drop_last() =~= pre);
                assert(self@.disk_stats.take(j as int + 1).last() == self@.disk_stats[j as int]);
                assert(kept_disks.deep_view() =~= self@.disk_stats.take(j as int + 1).filter(
                    dpred,
                ));
            }
            j = j + 1;
        }
        proof {
            assert(self@.disk_stats.take(nd as int) =~= self@.disk_stats);
        }

        proof {
            assert(self@.stats.filter(spred).len() <= self@.stats.len()) by {
                self@.stats.lemma_filter_len(spred);
            }
            assert(self@.disk_stats.filter(dpred).len() <= self@.disk_stats.len()) by {
                self@.disk_stats.lemma_filter_len(dpred);
            }
            lemma_filter_sorted(
                self@.stats,
                spred,
                |a: StatRow, b: StatRow| a.timestamp <= b.timestamp,
            );
            lemma_filter_sorted(
                self@.disk_stats,
                dpred,
                |a: DiskRowV, b: DiskRowV| disk_key_le(a, b),
            );
        }
        let removed = (ns - kept_stats.len()) + (nd - kept_disks.len());
        self.stats = kept_stats;
        self.disk_stats = kept_disks;
        proof {
            assert(self@.hosts == old(self)@.hosts);
            assert(self@.agg_stats == old(self)@.agg_stats);
            assert(self@.agg_disk_stats == old(self)@.agg_disk_stats);
            assert(self@.last_network == old(self)@.last_network);
            assert(db_wf(old(self)@));
            assert(db_wf(self@));
        }
        removed
    }

    /// Insert or replace the aggregated sample row carrying `row`'s key,
    /// keeping the tier table ordered by timestamp and unique per key.
    fn upsert_agg_stat(&mut self, row: AggStatRow)
        requires
            db_wf(old(self)@),
            agg_aligned(row.timestamp, row.interval_minutes),
        ensures
            db_wf(final(self)@),
            final(self)@.hosts == old(self)@.hosts,
            final(self)@.stats == old(self)@.stats,
            final(self)@.disk_stats == old(self)@.disk_stats,
            final(self)@.agg_disk_stats == old(self)@.agg_disk_stats,
            final(self)@.last_network == old(self)@.last_network,
            has_agg_key(final(self)@.agg_stats, agg_key(row)),
            agg_row_at(final(self)@.agg_stats, agg_key(row)) == row,
            forall|k: (u64, u64, u64)|
                k != agg_key(row) ==> #[trigger] has_agg_key(final(self)@.agg_stats, k)
                    == has_agg_key(old(self)@.agg_stats, k),
            forall|k: (u64, u64, u64)|
                k != agg_key(row) && has_agg_key(old(self)@.agg_stats, k)
                    ==> #[trigger] agg_row_at(final(self)@.agg_stats, k) == agg_row_at(
                    old(self)@.agg_stats,
                    k,
                ),
    {
        let n = self.agg_stats.len();
        let mut i: usize = 0;
        while i < n
            invariant
                db_wf(self@),
                *self == *old(self),
                n == self@.agg_stats.len(),
                i <= n,
                forall|j: int| 0 <= j < i ==> agg_key(#[trigger] self@.agg_stats[j]) != agg_key(row),
            decreases n - i,
        {
            if self.agg_stats[i].host_id == row.host_id && self.agg_stats[i].timestamp
                == row.timestamp && self.agg_stats[i].interval_minutes == row.interval_minutes {
                proof {
                    assert(agg_key(self@.agg_stats[i as int]) == agg_key(row));
                }
                self.agg_stats[i] = row;
                proof {
                    let news = self@.agg_stats;
                    let olds = old(self)@.agg_stats;
                    assert(news =~= olds.update(i as int, row));
                    assert forall|a: int| 0 <= a < news.len() implies agg_key(#[trigger] news[a])
                        == agg_key(olds[a]) && news[a].timestamp == olds[a].timestamp by {}
                    assert forall|a: int, b: int| 0 <= a < b < news.len() implies agg_key(
                        #[trigger] news[a],
                    ) != agg_key(#[trigger] news[b]) by {
                        assert(agg_key(olds[a]) != agg_key(olds[b]));
                    }
                    assert(self@.hosts == old(self)@.hosts);
                    assert(self@.stats == old(self)@.stats);
                    assert(self@.disk_stats == old(self)@.disk_stats);
                    assert(self@.agg_disk_stats == old(self)@.agg_disk_stats);
                    assert(self@.last_network == old(self)@.last_network);
                    assert(db_wf(old(self)@));
                    assert(db_wf(self@));
                    lemma_agg_row_at(news, i as int);
                    assert forall|k: (u64, u64, u64)|
                        k != agg_key(row) implies #[trigger] has_agg_key(news, k) == has_agg_key(
                        olds,
                        k,
                    ) by {
                        if has_agg_key(news, k) {
                            let j = choose|j: int|
                                0 <= j < news.len() && agg_key(#[trigger] news[j]) == k;
                            assert(agg_key(olds[j]) == k);
                        }
                        if has_agg_key(olds, k) {
                            let j = choose|j: int|
                                0 <= j < olds.len() && agg_key(#[trigger] olds[j]) == k;
                            assert(agg_key(news[j]) == k);
                        }
                    }
                    assert forall|k: (u64, u64, u64)|
                        k != agg_key(row) && has_agg_key(olds, k) implies #[trigger] agg_row_at(
                        news,
                        k,
                    ) == agg_row_at(olds, k) by {
                        let j = choose|j: int|
                            0 <= j < olds.len() && agg_key(#[trigger] olds[j]) == k;
                        assert(agg_key(news[j]) == k);
                        assert(news[j] == olds[j]);
                        lemma_agg_row_at(news, j);
                        lemma_agg_row_at(olds, j);
                    }
                }
                return;
            }
            i = i + 1;
        }
        let mut p: usize = n;
        while p > 0 && self.agg_stats[p - 1].timestamp > row.timestamp
            invariant
                db_wf(self@),
                *self == *old(self),
                n == self@.agg_stats.len(),
                p <= n,
                forall|j: int|
                    p <= j < n ==> (#[trigger] self@.agg_stats[j]).timestamp > row.timestamp,
            decreases p,
        {
            p = p - 1;
        }
        self.agg_stats.insert(p, row);
        proof {
            let news = self@.agg_stats;
            let olds = old(self)@.agg_stats;
            assert forall|a: int, b: int| 0 <= a < b < news.len() implies (
            #[trigger] news[a]).timestamp <= (#[trigger] news[b]).timestamp by {
                let aa = if a < p { a } else { a - 1 };
                let bb = if b < p { b } else { b - 1 };
                if a == p {
                    assert(olds[bb].timestamp > row.timestamp);
                } else if b == p {
                    if aa < p {
                        if p < n {
                            assert(olds[p as int].timestamp > row.timestamp);
                        }
                        assert(olds[aa].timestamp <= row.timestamp) by {
                            if p < n {
                                assert(olds[aa].timestamp <= olds[p as int].timestamp);
                                assert(!(olds[p - 1].timestamp > row.timestamp) || p == 0);
                            }
                            assert(!(olds[p - 1].timestamp > row.timestamp));
                        }
                    }
                } else {
                    assert(olds[aa].timestamp <= olds[bb].timestamp);
                }
            }
            assert forall|a: int, b: int| 0 <= a < b < news.len() implies agg_key(
                #[trigger] news[a],
            ) != agg_key(#[trigger] news[b]) by {
                let aa = if a < p { a } else { a - 1 };
                let bb = if b < p { b } else { b - 1 };
                if a == p {
                    assert(agg_key(olds[bb]) != agg_key(row));
                } else if b == p {
                    assert(agg_key(olds[aa]) != agg_key(row));
                } else {
                    assert(agg_key(olds[aa]) != agg_key(olds[bb]));
                }
            }
            assert(self@.hosts == old(self)@.hosts);
            assert(self@.stats == old(self)@.stats);
            assert(self@.disk_stats == old(self)@.disk_stats);
            assert(self@.agg_disk_stats == old(self)@.agg_disk_stats);
            assert(self@.last_network == old(self)@.last_network);
            assert(db_wf(old(self)@));
            assert(db_wf(self@));
            lemma_agg_row_at(news, p as int);
            assert forall|k: (u64, u64, u64)|
                k != agg_key(row) implies #[trigger] has_agg_key(news, k) == has_agg_key(
                olds,
                k,
            ) by {
                if has_agg_key(news, k) {
                    let j = choose|j: int| 0 <= j < news.len() && agg_key(#[trigger] news[j]) == k;
                    let jj = if j < p { j } else { j - 1 };
                    assert(agg_key(olds[jj]) == k);
                }
                if has_agg_key(olds, k) {
                    let j = choose|j: int| 0 <= j < olds.len() && agg_key(#[trigger] olds[j]) == k;
                    let jj = if j < p { j } else { j + 1 };
                    assert(agg_key(news[jj]) == k);
                }
            }
            assert forall|k: (u64, u64, u64)|
                k != agg_key(row) && has_agg_key(olds, k) implies #[trigger] agg_row_at(news, k)
                    == agg_row_at(olds, k) by {
                let j = choose|j: int| 0 <= j < olds.len() && agg_key(#[trigger] olds[j]) == k;
                let jj = if j < p { j } else { j + 1 };
                assert(agg_key(news[jj]) == k);
                assert(news[jj] == olds[j]);
                lemma_agg_row_at(news, jj);
                lemma_agg_row_at(olds, j);
            }
        }
    }

    /// Insert or replace the aggregated disk row carrying `row`'s key,
    /// keeping the tier table unique per key.
    fn upsert_agg_disk(&mut self, row: AggDiskRow)
        requires
            db_wf(old(self)@),
            agg_aligned(row@.timestamp, row@.interval_minutes),
        ensures
            db_wf(final(self)@),
            final(self)@.hosts == old(self)@.hosts,
            final(self)@.stats == old(self)@.stats,
            final(self)@.disk_stats == old(self)@.disk_stats,
            final(self)@.agg_stats == old(self)@.agg_stats,
            final(self)@.last_network == old(self)@.last_network,
            has_agg_disk_key(final(self)@.agg_disk_stats, agg_disk_key(row@)),
            agg_disk_row_at(final(self)@.agg_disk_stats, agg_disk_key(row@)) == row@,
            forall|k: (u64, u64, u64, Seq<char>)|
                k != agg_disk_key(row@) ==> #[trigger] has_agg_disk_key(
                    final(self)@.agg_disk_stats,
                    k,
                ) == has_agg_disk_key(old(self)@.agg_disk_stats, k),
            forall|k: (u64, u64, u64, Seq<char>)|
                k != agg_disk_key(row@) && has_agg_disk_key(old(self)@.agg_disk_stats, k)
                    ==> #[trigger] agg_disk_row_at(final(self)@.agg_disk_stats, k)
                    == agg_disk_row_at(old(self)@.agg_disk_stats, k),
    {
        let ghost rv = row@;
        let n = self.agg_disk_stats.len();
        let mut i: usize = 0;
        while i < n
            invariant
                db_wf(self@),
                *self == *old(self),
                rv == row@,
                n == self@.agg_disk_stats.len(),
                i <= n,
                forall|j: int|
                    0 <= j < i ==> agg_disk_key(#[trigger] self@.agg_disk_stats[j])
                        != agg_disk_key(rv),
            decreases n - i,
        {
            if self.agg_disk_stats[i].host_id == row.host_id && self.agg_disk_stats[i].timestamp
                == row.timestamp && self.agg_disk_stats[i].interval_minutes
                == row.interval_minutes && str_eq(
                self.agg_disk_stats[i].mount_point.as_str(),
                row.mount_point.as_str(),
            ) {
                proof {
                    assert(agg_disk_key(self@.agg_disk_stats[i as int]) == agg_disk_key(rv));
                }
                self.agg_disk_stats[i] = row;
                proof {
                    let news = self@.agg_disk_stats;
                    let olds = old(self)@.agg_disk_stats;
                    assert(news =~= olds.update(i as int, rv));
                    assert forall|a: int| 0 <= a < news.len() implies agg_disk_key(
                        #[trigger] news[a],
                    ) == agg_disk_key(olds[a]) by {}
                    assert forall|a: int, b: int| 0 <= a < b < news.len() implies agg_disk_key(
                        #[trigger] news[a],
                    ) != agg_disk_key(#[trigger] news[b]) by {
                        assert(agg_disk_key(olds[a]) != agg_disk_key(olds[b]));
                    }
                    assert(self@.hosts == old(self)@.hosts);
                    assert(self@.stats == old(self)@.stats);
                    assert(self@.disk_stats == old(self)@.disk_stats);
                    assert(self@.agg_stats == old(self)@.agg_stats);
                    assert(self@.last_network == old(self)@.last_network);
                    assert(db_wf(old(self)@));
                    assert(db_wf(self@));
                    lemma_agg_disk_row_at(news, i as int);
                    assert forall|k: (u64, u64, u64, Seq<char>)|
                        k != agg_disk_key(rv) implies #[trigger] has_agg_disk_key(news, k)
                            == has_agg_disk_key(olds, k) by {
                        if has_agg_disk_key(news, k) {
                            let j = choose|j: int|
                                0 <= j < news.len() && agg_disk_key(#[trigger] news[j]) == k;
                            assert(agg_disk_key(olds[j]) == k);
                        }
                        if has_agg_disk_key(olds, k) {
                            let j = choose|j: int|
                                0 <= j < olds.len() && agg_disk_key(#[trigger] olds[j]) == k;
                            assert(agg_disk_key(news[j]) == k);
                        }
                    }
                    assert forall|k: (u64, u64, u64, Seq<char>)|
                        k != agg_disk_key(rv) && has_agg_disk_key(olds, k)
                            implies #[trigger] agg_disk_row_at(news, k) == agg_disk_row_at(
                        olds,
                        k,
                    ) by {
                        let j = choose|j: int|
                            0 <= j < olds.len() && agg_disk_key(#[trigger] olds[j]) == k;
                        assert(agg_disk_key(news[j]) == k);
                        assert(news[j] == olds[j]);
                        lemma_agg_disk_row_at(news, j);
                        lemma_agg_disk_row_at(olds, j);
                    }
                }
                return;
            }
            i = i + 1;
        }
        self.agg_disk_stats.push(row);
        proof {
            let news = self@.agg_disk_stats;
            let olds = old(self)@.agg_disk_stats;
            assert(news =~= olds.push(rv));
            assert forall|a: int, b: int| 0 <= a < b < news.len() implies agg_disk_key(
                #[trigger] news[a],
            ) != agg_disk_key(#[trigger] news[b]) by {
                if b < n {
                    assert(agg_disk_key(olds[a]) != agg_disk_key(olds[b]));
                } else {
                    assert(agg_disk_key(olds[a]) != agg_disk_key(rv));
                }
            }
            assert(self@.hosts == old(self)@.hosts);
            assert(self@.stats == old(self)@.stats);
            assert(self@.disk_stats == old(self)@.disk_stats);
            assert(self@.agg_stats == old(self)@.agg_stats);
            assert(self@.last_network == old(self)@.last_network);
            assert(db_wf(old(self)@));
            assert(db_wf(self@));
            lemma_agg_disk_row_at(news, n as int);
            assert forall|k: (u64, u64, u64, Seq<char>)|
                k != agg_disk_key(rv) implies #[trigger] has_agg_disk_key(news, k)
                    == has_agg_disk_key(olds, k) by {
                if has_agg_disk_key(news, k) {
                    let j = choose|j: int|
                        0 <= j < news.len() && agg_disk_key(#[trigger] news[j]) == k;
                    assert(agg_disk_key(olds[j]) == k);
                }
                if has_agg_disk_key(olds, k) {
                    let j = choose|j: int|
                        0 <= j < olds.len() && agg_disk_key(#[trigger] olds[j]) == k;
                    assert(agg_disk_key(news[j]) == k);
                }
            }
            assert forall|k: (u64, u64, u64, Seq<char>)|
                k != agg_disk_key(rv) && has_agg_disk_key(olds, k)
                    implies #[trigger] agg_disk_row_at(news, k) == agg_disk_row_at(olds, k) by {
                let j = choose|j: int| 0 <= j < olds.len() && agg_disk_key(#[trigger] olds[j]) == k;
                assert(agg_disk_key(news[j]) == k);
                assert(news[j] == olds[j]);
                lemma_agg_disk_row_at(news, j);
                lemma_agg_disk_row_at(olds, j);
            }
        }
    }

    /// The raw sample rows of host `h` in the bucket `[t, t + step)`.
    fn collect_stat_bucket(&self, h: u64, t: u64, interval: u64, step: u64) -> (v: Vec<StatRow>)
        requires
            step == interval * 60,
            t + step <= u64::MAX,
        ensures
            v@ == stat_bucket(self@, h, t, interval),
    {
        let ghost pred = |r: StatRow| r.host_id == h && t <= r.timestamp < t + interval * 60;
        let mut v: Vec<StatRow> = Vec::new();
        let n = self.stats.len();
        let mut i: usize = 0;
        while i < n
            invariant
                n == self@.stats.len(),
                i <= n,
                step == interval * 60,
                t + step <= u64::MAX,
                pred == (|r: StatRow| r.host_id == h && t <= r.timestamp < t + interval * 60),
                v@ == self@.stats.take(i as int).filter(pred),
            decreases n - i,
        {
            let ghost pre = self@.stats.take(i as int);
            let row = self.stats[i];
            if row.host_id == h && t <= row.timestamp && row.timestamp < t + step {
                v.push(row);
            }
            proof {
                reveal(Seq::filter);
                assert(self@.stats.take(i as int + 1).drop_last() =~= pre);
                assert(self@.stats.take(i as int + 1).last() == self@.stats[i as int]);
            }
            i = i + 1;
        }
        proof {
            assert(self@.stats.take(n as int) =~= self@.stats);
        }
        v
    }

    /// The per-disk rows of host `h` in the bucket `[t, t + step)`.
    fn collect_disk_bucket(&self, h: u64, t: u64, interval: u64, step: u64) -> (v: Vec<DiskRow>)
        requires
            step == interval * 60,
            t + step <= u64::MAX,
        ensures
            v.deep_view() == disk_bucket(self@, h, t, interval),
    {
        let ghost pred = |r: DiskRowV| r.host_id == h && t <= r.timestamp < t + interval * 60;
        let mut v: Vec<DiskRow> = Vec::new();
        let n = self.disk_stats.len();
        let mut i: usize = 0;
        while i < n
            invariant
                n == self@.disk_stats.len(),
                i <= n,
                step == interval * 60,
                t + step <= u64::MAX,
                pred == (|r: DiskRowV| r.host_id == h && t <= r.timestamp < t + interval * 60),
                v.deep_view() == self@.disk_stats.take(i as int).filter(pred),
            decreases n - i,
        {
            let ghost pre = self@.disk_stats.take(i as int);
            let keep = self.disk_stats[i].host_id == h && t <= self.disk_stats[i].timestamp
                && self.disk_stats[i].timestamp < t + step;
            if keep {
                let row = DiskRow {
                    host_id: self.disk_stats[i].host_id,
                    timestamp: self.disk_stats[i].timestamp,
                    mount_point: self.disk_stats[i].mount_point.clone(),
                    total: self.disk_stats[i].total,
                    used: self.disk_stats[i].used,
                };
                proof {
                    assert(row@ == self@.disk_stats[i as int]);
                }
                v.push(row);
            }
            proof {
                reveal(Seq::filter);
                assert(self@.disk_stats.take(i as int + 1).drop_last() =~= pre);
                assert(self@.disk_stats.take(i as int + 1).last() == self@.disk_stats[i as int]);
                assert(v.deep_view() =~= self@.disk_stats.take(i as int + 1).filter(pred));
            }
            i = i + 1;
        }
        proof {
            assert(self@.disk_stats.take(n as int) =~= self@.disk_stats);
        }
        v
    }

    /// The latest timestamp tier `interval` has aggregated, if any.
    fn find_max_agg_ts(&self, interval: u64) -> (r: Option<u64>)
        ensures
            match r {
                Some(v) => has_agg_interval(self@.agg_stats, interval) && v == max_agg_ts(
                    self@.agg_stats,
                    interval,
                ),
                None => !has_agg_interval(self@.agg_stats, interval),
            },
    {
        let s_len = self.agg_stats.len();
        let mut acc: Option<u64> = None;
        let mut i: usize = 0;
        while i < s_len
            invariant
                s_len == self@.agg_stats.len(),
                i <= s_len,
                match acc {
                    Some(v) => (exists|j: int|
                        0 <= j < i && (#[trigger] self@.agg_stats[j]).interval_minutes == interval
                            && self@.agg_stats[j].timestamp == v) && (forall|j: int|
                        0 <= j < i && (#[trigger] self@.agg_stats[j]).interval_minutes == interval
                            ==> self@.agg_stats[j].timestamp <= v),
                    None => forall|j: int|
                        0 <= j < i ==> (#[trigger] self@.agg_stats[j]).interval_minutes
                            != interval,
                },
            decreases s_len - i,
        {
            if self.agg_stats[i].interval_minutes == interval {
                let ts = self.agg_stats[i].timestamp;
                acc = match acc {
                    Some(v) => if ts > v {
                        Some(ts)
                    } else {
                        Some(v)
                    },
                    None => Some(ts),
                };
            }
            i = i + 1;
        }
        proof {
            if acc is Some {
                let v = acc->0;
                assert(is_max_agg_ts(self@.agg_stats, interval, v));
                let c = max_agg_ts(self@.agg_stats, interval);
                assert(is_max_agg_ts(self@.agg_stats, interval, c));
                assert(c <= v && v <= c);
            }
        }
        acc
    }

    /// Roll raw samples into tier `interval_minutes`, walking fixed-width
    /// buckets from the tier's resume point up to `now` truncated to a bucket
    /// boundary. Within a bucket, gauges average, cumulative counters take
    /// their maximum, and a host counts as online if any sample was; disk
    /// gauges average per mount point. Writes are insert-or-replace, so
    /// re-running a bucket is safe; a bucket with no raw rows is skipped.
    pub fn aggregate_data_at(&mut self, interval_minutes: u64, now: u64) -> (r: Result<
        (),
        StoreError,
    >)
        requires
            db_wf(old(self)@),
            0 < interval_minutes,
            interval_minutes * 60 <= u64::MAX,
        ensures
            db_wf(final(self)@),
            r is Ok,
            final(self)@.hosts == old(self)@.hosts,
            final(self)@.stats == old(self)@.stats,
            final(self)@.disk_stats == old(self)@.disk_stats,
            final(self)@.last_network == old(self)@.last_network,
            agg_state_ok(
                final(self)@.agg_stats,
                old(self)@,
                interval_minutes,
                now,
                |k: (u64, u64, u64)| true,
            ),
            agg_disk_state_ok(
                final(self)@.agg_disk_stats,
                old(self)@,
                interval_minutes,
                now,
                |k: (u64, u64, u64, Seq<char>)| true,
            ),
    {
        let interval = interval_minutes;
        let step = interval * 60;
        let ghost d0 = old(self)@;
        let max_ts = self.find_max_agg_ts(interval);
        let start_opt: Option<u64> = match max_ts {
            Some(v) => Some(crate::align_to_bucket(v, step)),
            None => {
                if self.stats.len() > 0 {
                    Some(crate::align_to_bucket(self.stats[0].timestamp, step))
                } else {
                    None
                }
            },
        };
        proof {
            match start_opt {
                Option::Some(st) => {
                    assert(agg_start(d0, interval) == Option::Some(st));
                },
                Option::None => {
                    assert(agg_start(d0, interval) is None);
                },
            }
        }
        let start = match start_opt {
            Some(st) => st,
            None => {
                proof {
                    assert forall|k: (u64, u64, u64)| !agg_written(d0, interval, now, k) by {}
                    assert forall|k: (u64, u64, u64, Seq<char>)| !agg_disk_written(
                        d0,
                        interval,
                        now,
                        k,
                    ) by {}
                    assert(agg_state_ok(
                        self@.agg_stats,
                        d0,
                        interval,
                        now,
                        |k: (u64, u64, u64)| true,
                    )) by {
                        assert forall|k: (u64, u64, u64)| #[trigger] has_agg_key(self@.agg_stats, k)
                            == (has_agg_key(d0.agg_stats, k) || (agg_written(d0, interval, now, k)
                            && true)) by {
                            assert(!agg_written(d0, interval, now, k));
                        }
                    }
                    assert(agg_disk_state_ok(
                        self@.agg_disk_stats,
                        d0,
                        interval,
                        now,
                        |k: (u64, u64, u64, Seq<char>)| true,
                    )) by {
                        assert forall|k: (u64, u64, u64, Seq<char>)| #[trigger] has_agg_disk_key(
                            self@.agg_disk_stats,
                            k,
                        ) == (has_agg_disk_key(d0.agg_disk_stats, k) || (agg_disk_written(
                            d0,
                            interval,
                            now,
                            k,
                        ) && true)) by {
                            assert(!agg_disk_written(d0, interval, now, k));
                        }
                    }
                }
                return Ok(());
            },
        };
        let end = crate::align_to_bucket(now, step);
        proof {
            lemma_floor_to(now, step);
            assert(end == floor_to(now, step));
            assert(end as int % step as int == 0);
            match max_ts {
                Option::Some(v) => {
                    lemma_floor_to(v, step);
                },
                Option::None => {
                    lemma_floor_to(self@.stats[0].timestamp, step);
                },
            }
            assert(start as int % step as int == 0);
        }
        if start >= end {
            proof {
                assert forall|k: (u64, u64, u64)| !agg_written(d0, interval, now, k) by {}
                assert forall|k: (u64, u64, u64, Seq<char>)| !agg_disk_written(
                    d0,
                    interval,
                    now,
                    k,
                ) by {}
                assert(agg_state_ok(self@.agg_stats, d0, interval, now, |k: (u64, u64, u64)| true))
                    by {
                    assert forall|k: (u64, u64, u64)| #[trigger] has_agg_key(self@.agg_stats, k)
                        == (has_agg_key(d0.agg_stats, k) || (agg_written(d0, interval, now, k)
                        && true)) by {
                        assert(!agg_written(d0, interval, now, k));
                    }
                }
                assert(agg_disk_state_ok(
                    self@.agg_disk_stats,
                    d0,
                    interval,
                    now,
                    |k: (u64, u64, u64, Seq<char>)| true,
                )) by {
                    assert forall|k: (u64, u64, u64, Seq<char>)| #[trigger] has_agg_disk_key(
                        self@.agg_disk_stats,
                        k,
                    ) == (has_agg_disk_key(d0.agg_disk_stats, k) || (agg_disk_written(
                        d0,
                        interval,
                        now,
                        k,
                    ) && true)) by {
                        assert(!agg_disk_written(d0, interval, now, k));
                    }
                }
            }
            return Ok(());
        }
        let nh = self.hosts.len();
        let mut hi: usize = 0;
        while hi < nh
            invariant
                db_wf(self@),
                self@.hosts == d0.hosts,
                self@.stats == d0.stats,
                self@.disk_stats == d0.disk_stats,
                self@.last_network == d0.last_network,
                db_wf(d0),
                nh == d0.hosts.len(),
                hi <= nh,
                0 < interval,
                step == interval * 60,
                agg_start(d0, interval) == Option::Some(start),
                end == floor_to(now, step),
                end as int % step as int == 0,
                start < end,
                start as int % step as int == 0,
                agg_state_ok(
                    self@.agg_stats,
                    d0,
                    interval,
                    now,
                    |k: (u64, u64, u64)| k.0 <= hi as u64,
                ),
                agg_disk_state_ok(
                    self@.agg_disk_stats,
                    d0,
                    interval,
                    now,
                    |k: (u64, u64, u64, Seq<char>)| k.0 <= hi as u64,
                ),
            decreases nh - hi,
        {
            let h = self.hosts[hi].id;
            proof {
                assert(self@.hosts[hi as int].id == hi + 1);
                assert(h == hi + 1);
            }
            let mut t = start;
            while t < end
                invariant
                    db_wf(self@),
                    self@.hosts == d0.hosts,
                    self@.stats == d0.stats,
                    self@.disk_stats == d0.disk_stats,
                    self@.last_network == d0.last_network,
                    db_wf(d0),
                    nh == d0.hosts.len(),
                    hi < nh,
                    h == hi + 1,
                    0 < interval,
                    step == interval * 60,
                    agg_start(d0, interval) == Option::Some(start),
                    end == floor_to(now, step),
                    end as int % step as int == 0,
                    start < end,
                    start as int % step as int == 0,
                    start <= t <= end,
                    t as int % step as int == 0,
                    agg_state_ok(
                        self@.agg_stats,
                        d0,
                        interval,
                        now,
                        |k: (u64, u64, u64)| k.0 <= hi as u64 || (k.0 == h && k.1 < t),
                    ),
                    agg_disk_state_ok(
                        self@.agg_disk_stats,
                        d0,
                        interval,
                        now,
                        |k: (u64, u64, u64, Seq<char>)| k.0 <= hi as u64 || (k.0 == h && k.1 < t),
                    ),
                decreases end - t,
            {
                proof {
                    lemma_aligned_gap(t as int, end as int, step as int);
                }
                let ghost done_before = |k: (u64, u64, u64)| k.0 <= hi as u64 || (k.0 == h && k.1
                    < t);
                let ghost done_mid = |k: (u64, u64, u64)| k.0 <= hi as u64 || (k.0 == h && k.1
                    <= t);
                let bucket = self.collect_stat_bucket(h, t, interval, step);
                proof {
                    assert(stat_bucket(self@, h, t, interval) == stat_bucket(d0, h, t, interval))
                        by {
                        assert(self@.stats == d0.stats);
                    }
                }
                if bucket.len() > 0 {
                    let row = compute_bucket_row(&bucket, h, t, interval);
                    proof {
                        assert(agg_aligned(row.timestamp, row.interval_minutes));
                    }
                    let ghost cur = self@.agg_stats;
                    self.upsert_agg_stat(row);
                    proof {
                        let kk = (h, t, interval);
                        assert(agg_key(row) == kk);
                        assert(agg_written(d0, interval, now, kk));
                        let done_kk = |k: (u64, u64, u64)| done_before(k) || k == kk;
                        lemma_agg_state_upsert(
                            cur,
                            self@.agg_stats,
                            d0,
                            interval,
                            now,
                            done_before,
                            done_kk,
                            kk,
                        );
                        assert forall|k: (u64, u64, u64)| #[trigger] done_mid(k) implies done_kk(k)
                            || !agg_written(d0, interval, now, k) by {
                            if done_mid(k) && !done_before(k) && k != kk {
                                if agg_written(d0, interval, now, k) {
                                    assert(k.0 == h && k.1 == t && k.2 == interval);
                                }
                            }
                        }
                        lemma_agg_state_extend(
                            self@.agg_stats,
                            d0,
                            interval,
                            now,
                            done_kk,
                            done_mid,
                        );
                    }
                } else {
                    proof {
                        assert forall|k: (u64, u64, u64)| #[trigger] done_mid(k) implies
                            done_before(k) || !agg_written(d0, interval, now, k) by {
                            if done_mid(k) && !done_before(k) {
                                if agg_written(d0, interval, now, k) {
                                    assert(k.0 == h && k.1 == t && k.2 == interval);
                                    assert(stat_bucket(d0, h, t, interval).len() > 0);
                                }
                            }
                        }
                        lemma_agg_state_extend(
                            self@.agg_stats,
                            d0,
                            interval,
                            now,
                            done_before,
                            done_mid,
                        );
                    }
                }
                let dbucket = self.collect_disk_bucket(h, t, interval, step);
                proof {
                    assert(disk_bucket(self@, h, t, interval) == disk_bucket(d0, h, t, interval))
                        by {
                        assert(self@.disk_stats == d0.disk_stats);
                    }
                }
                let ghost bucket_mounts = mounts_of(disk_bucket(d0, h, t, interval));
                let mounts = distinct_mounts(&dbucket);
                let nm = mounts.len();
                let mut mi: usize = 0;
                while mi < nm
                    invariant
                        db_wf(self@),
                        self@.hosts == d0.hosts,
                        self@.stats == d0.stats,
                        self@.disk_stats == d0.disk_stats,
                        self@.last_network == d0.last_network,
                        db_wf(d0),
                        nh == d0.hosts.len(),
                        hi < nh,
                        h == hi + 1,
                        0 < interval,
                        step == interval * 60,
                        agg_start(d0, interval) == Option::Some(start),
                        end == floor_to(now, step),
                        end as int % step as int == 0,
                        start < end,
                        start as int % step as int == 0,
                        start <= t < end,
                        t as int % step as int == 0,
                        t + step <= end,
                        dbucket.deep_view() == disk_bucket(d0, h, t, interval),
                        bucket_mounts == mounts_of(disk_bucket(d0, h, t, interval)),
                        nm == mounts@.len(),
                        mi <= nm,
                        nm == bucket_mounts.len(),
                        forall|j: int|
                            0 <= j < nm ==> (#[trigger] mounts@[j])@ == bucket_mounts[j],
                        agg_state_ok(
                            self@.agg_stats,
                            d0,
                            interval,
                            now,
                            |k: (u64, u64, u64)| k.0 <= hi as u64 || (k.0 == h && k.1 <= t),
                        ),
                        agg_disk_state_ok(
                            self@.agg_disk_stats,
                            d0,
                            interval,
                            now,
                            |k: (u64, u64, u64, Seq<char>)|
                                k.0 <= hi as u64 || (k.0 == h && k.1 < t) || (k.0 == h && k.1 == t
                                    && bucket_mounts.take(mi as int).contains(k.3)),
                        ),
                    decreases nm - mi,
                {
                    let ghost ddone_before = |k: (u64, u64, u64, Seq<char>)|
                        k.0 <= hi as u64 || (k.0 == h && k.1 < t) || (k.0 == h && k.1 == t
                            && bucket_mounts.take(mi as int).contains(k.3));
                    let ghost ddone_after = |k: (u64, u64, u64, Seq<char>)|
                        k.0 <= hi as u64 || (k.0 == h && k.1 < t) || (k.0 == h && k.1 == t
                            && bucket_mounts.take(mi as int + 1).contains(k.3));
                    let mrows = filter_mount(&dbucket, &mounts[mi]);
                    let ghost m = mounts@[mi as int]@;
                    proof {
                        assert(m == bucket_mounts[mi as int]);
                        assert(bucket_mounts.take(mi as int + 1) =~= bucket_mounts.take(
                            mi as int,
                        ).push(m));
                    }
                    if mrows.len() > 0 {
                        let drow = compute_bucket_disk_row(&mrows, h, t, interval, &mounts[mi]);
                        let ghost cur = self@.agg_disk_stats;
                        self.upsert_agg_disk(drow);
                        proof {
                            let kk = (h, t, interval, m);
                            assert(agg_disk_key(drow@) == kk);
                            assert(mount_rows(disk_bucket(d0, h, t, interval), m).len() > 0) by {
                                assert(mrows.deep_view().len() > 0);
                            }
                            assert(agg_disk_written(d0, interval, now, kk));
                            let done_kk = |k: (u64, u64, u64, Seq<char>)| ddone_before(k) || k
                                == kk;
                            lemma_agg_disk_state_upsert(
                                cur,
                                self@.agg_disk_stats,
                                d0,
                                interval,
                                now,
                                ddone_before,
                                done_kk,
                                kk,
                            );
                            assert forall|k: (u64, u64, u64, Seq<char>)| #[trigger] done_kk(k)
                                implies ddone_after(k) by {
                                if ddone_before(k) {
                                    if k.0 == h && k.1 == t && bucket_mounts.take(
                                        mi as int,
                                    ).contains(k.3) {
                                        let j = choose|j: int|
                                            0 <= j < mi && #[trigger] bucket_mounts.take(
                                                mi as int,
                                            )[j] == k.3;
                                        assert(bucket_mounts.take(mi as int + 1)[j] == k.3);
                                    }
                                } else {
                                    assert(bucket_mounts.take(mi as int + 1)[mi as int] == m);
                                }
                            }
                            assert forall|k: (u64, u64, u64, Seq<char>)| #[trigger] ddone_after(k)
                                implies done_kk(k) || !agg_disk_written(d0, interval, now, k) by {
                                if ddone_after(k) && !ddone_before(k) && k != kk {
                                    assert(k.0 == h && k.1 == t && bucket_mounts.take(
                                        mi as int + 1,
                                    ).contains(k.3));
                                    let j = choose|j: int|
                                        0 <= j < mi + 1 && #[trigger] bucket_mounts.take(
                                            mi as int + 1,
                                        )[j] == k.3;
                                    assert(j == mi);
                                    assert(k.3 == m);
                                    if agg_disk_written(d0, interval, now, k) {
                                        assert(k.2 == interval);
                                        assert(k == kk);
                                    }
                                }
                            }
                            lemma_agg_disk_state_extend(
                                self@.agg_disk_stats,
                                d0,
                                interval,
                                now,
                                done_kk,
                                ddone_after,
                            );
                        }
                    } else {
                        proof {
                            assert(mount_rows(disk_bucket(d0, h, t, interval), m).len() == 0) by {
                                assert(mrows.deep_view().len() == 0);
                            }
                            assert forall|k: (u64, u64, u64, Seq<char>)| #[trigger] ddone_before(
                                k,
                            ) implies ddone_after(k) by {
                                if k.0 == h && k.1 == t && bucket_mounts.take(mi as int).contains(
                                    k.3,
                                ) {
                                    let j = choose|j: int|
                                        0 <= j < mi && #[trigger] bucket_mounts.take(mi as int)[j]
                                            == k.3;
                                    assert(bucket_mounts.take(mi as int + 1)[j] == k.3);
                                }
                            }
                            assert forall|k: (u64, u64, u64, Seq<char>)| #[trigger] ddone_after(k)
                                implies ddone_before(k) || !agg_disk_written(d0, interval, now, k)
                                by {
                                if ddone_after(k) && !ddone_before(k) {
                                    assert(k.0 == h && k.1 == t && bucket_mounts.take(
                                        mi as int + 1,
                                    ).contains(k.3));
                                    let j = choose|j: int|
                                        0 <= j < mi + 1 && #[trigger] bucket_mounts.take(
                                            mi as int + 1,
                                        )[j] == k.3;
                                    assert(j == mi);
                                    assert(k.3 == m);
                                    if agg_disk_written(d0, interval, now, k) {
                                        assert(k.2 == interval);
                                        assert(mount_rows(
                                            disk_bucket(d0, k.0, k.1, interval),
                                            k.3,
                                        ).len() > 0);
                                    }
                                }
                            }
                            lemma_agg_disk_state_extend(
                                self@.agg_disk_stats,
                                d0,
                                interval,
                                now,
                                ddone_before,
                                ddone_after,
                            );
                        }
                    }
                    mi = mi + 1;
                }
                proof {
                    let ddone_exit = |k: (u64, u64, u64, Seq<char>)|
                        k.0 <= hi as u64 || (k.0 == h && k.1 < t) || (k.0 == h && k.1 == t
                            && bucket_mounts.take(nm as int).contains(k.3));
                    let ddone_next = |k: (u64, u64, u64, Seq<char>)| k.0 <= hi as u64 || (k.0 == h
                        && k.1 < t + step);
                    assert(bucket_mounts.take(nm as int) =~= bucket_mounts);
                    assert forall|k: (u64, u64, u64, Seq<char>)| #[trigger] ddone_next(k) implies
                        ddone_exit(k) || !agg_disk_written(d0, interval, now, k) by {
                        if ddone_next(k) && !ddone_exit(k) {
                            assert(k.0 == h && t <= k.1 < t + step);
                            if agg_disk_written(d0, interval, now, k) {
                                if k.1 != t {
                                    lemma_aligned_gap(t as int, k.1 as int, step as int);
                                    assert(false);
                                }
                                assert(mount_rows(disk_bucket(d0, h, t, interval), k.3).len() > 0);
                                let pred = |r: DiskRowV| r.mount_point == k.3;
                                let flt = disk_bucket(d0, h, t, interval).filter(pred);
                                lemma_filter_membership(disk_bucket(d0, h, t, interval), pred, 0);
                                let j = choose|j: int|
                                    0 <= j < disk_bucket(d0, h, t, interval).len() && disk_bucket(
                                        d0,
                                        h,
                                        t,
                                        interval,
                                    )[j] == flt[0];
                                disk_bucket(d0, h, t, interval).lemma_filter_pred(pred, 0);
                                lemma_mounts_of_complete(disk_bucket(d0, h, t, interval), j);
                                assert(bucket_mounts.contains(k.3));
                                assert(false);
                            }
                        }
                    }
                    lemma_agg_disk_state_extend(
                        self@.agg_disk_stats,
                        d0,
                        interval,
                        now,
                        ddone_exit,
                        ddone_next,
                    );
                    let done_mid2 = |k: (u64, u64, u64)| k.0 <= hi as u64 || (k.0 == h && k.1
                        <= t);
                    let done_next = |k: (u64, u64, u64)| k.0 <= hi as u64 || (k.0 == h && k.1 < t
                        + step);
                    assert forall|k: (u64, u64, u64)| #[trigger] done_next(k) implies done_mid2(k)
                        || !agg_written(d0, interval, now, k) by {
                        if done_next(k) && !done_mid2(k) {
                            assert(k.0 == h && t < k.1 < t + step);
                            if agg_written(d0, interval, now, k) {
                                lemma_aligned_gap(t as int, k.1 as int, step as int);
                            }
                        }
                    }
                    lemma_agg_state_extend(self@.agg_stats, d0, interval, now, done_mid2, done_next);
                    assert(((t + step) as int) % (step as int) == 0) by (nonlinear_arith)
                        requires
                            step > 0,
                            t as int % step as int == 0,
                            t + step <= u64::MAX,
                    ;
                }
                t = t + step;
            }
            proof {
                let done_exit = |k: (u64, u64, u64)| k.0 <= hi as u64 || (k.0 == h && k.1 < t);
                let done_host = |k: (u64, u64, u64)| k.0 <= (hi + 1) as u64;
                assert forall|k: (u64, u64, u64)| #[trigger] done_host(k) implies done_exit(k)
                    || !agg_written(d0, interval, now, k) by {
                    if done_host(k) && !done_exit(k) {
                        if agg_written(d0, interval, now, k) {
                            assert(k.1 < end <= t);
                        }
                    }
                }
                lemma_agg_state_extend(self@.agg_stats, d0, interval, now, done_exit, done_host);
                let ddone_exit = |k: (u64, u64, u64, Seq<char>)| k.0 <= hi as u64 || (k.0 == h
                    && k.1 < t);
                let ddone_host = |k: (u64, u64, u64, Seq<char>)| k.0 <= (hi + 1) as u64;
                assert forall|k: (u64, u64, u64, Seq<char>)| #[trigger] ddone_host(k) implies
                    ddone_exit(k) || !agg_disk_written(d0, interval, now, k) by {
                    if ddone_host(k) && !ddone_exit(k) {
                        if agg_disk_written(d0, interval, now, k) {
                            assert(k.1 < end <= t);
                        }
                    }
                }
                lemma_agg_disk_state_extend(
                    self@.agg_disk_stats,
                    d0,
                    interval,
                    now,
                    ddone_exit,
                    ddone_host,
                );
            }
            hi = hi + 1;
        }
        proof {
            let done_all = |k: (u64, u64, u64)| k.0 <= nh as u64;
            let done_true = |k: (u64, u64, u64)| true;
            assert forall|k: (u64, u64, u64)| #[trigger] done_true(k) implies done_all(k)
                || !agg_written(d0, interval, now, k) by {
                if agg_written(d0, interval, now, k) {
                    assert(1 <= k.0 <= d0.hosts.len());
                }
            }
            lemma_agg_state_extend(self@.agg_stats, d0, interval, now, done_all, done_true);
            let ddone_all = |k: (u64, u64, u64, Seq<char>)| k.0 <= nh as u64;
            let ddone_true = |k: (u64, u64, u64, Seq<char>)| true;
            assert forall|k: (u64, u64, u64, Seq<char>)| #[trigger] ddone_true(k) implies
                ddone_all(k) || !agg_disk_written(d0, interval, now, k) by {
                if agg_disk_written(d0, interval, now, k) {
                    assert(1 <= k.0 <= d0.hosts.len());
                }
            }
            lemma_agg_disk_state_extend(
                self@.agg_disk_stats,
                d0,
                interval,
                now,
                ddone_all,
                ddone_true,
            );
        }
        Ok(())
    }

    /// Host `id`'s raw rows inside the closed query range, in table order.
    fn collect_raw_rows(&self, id: u64, start: u64, end: u64) -> (v: Vec<StatRow>)
        ensures
            v@ == raw_rows_of(self@, id, start, end),
    {
        let ghost pred = |r: StatRow| r.host_id == id && start <= r.timestamp && r.timestamp
            <= end;
        let mut v: Vec<StatRow> = Vec::new();
        let n = self.stats.len();
        let mut i: usize = 0;
        while i < n
            invariant
                n == self@.stats.len(),
                i <= n,
                pred == (|r: StatRow| r.host_id == id && start <= r.timestamp && r.timestamp
                    <= end),
                v@ == self@.stats.take(i as int).filter(pred),
            decreases n - i,
        {
            let ghost pre = self@.stats.take(i as int);
            let row = self.stats[i];
            if row.host_id == id && start <= row.timestamp && row.timestamp <= end {
                v.push(row);
            }
            proof {
                reveal(Seq::filter);
                assert(self@.stats.take(i as int + 1).drop_last() =~= pre);
                assert(self@.stats.take(i as int + 1).last() == self@.stats[i as int]);
            }
            i = i + 1;
        }
        proof {
            assert(self@.stats.take(n as int) =~= self@.stats);
        }
        v
    }

    /// Host `id`'s aggregated rows of `tier` inside the closed query range.
    fn collect_agg_rows(&self, id: u64, tier: u64, start: u64, end: u64) -> (v: Vec<AggStatRow>)
        ensures
            v@ == agg_rows_of(self@, id, tier, start, end),
    {
        let ghost pred = |r: AggStatRow| r.host_id == id && r.interval_minutes == tier && start
            <= r.timestamp && r.timestamp <= end;
        let mut v: Vec<AggStatRow> = Vec::new();
        let n = self.agg_stats.len();
        let mut i: usize = 0;
        while i < n
            invariant
                n == self@.agg_stats.len(),
                i <= n,
                pred == (|r: AggStatRow| r.host_id == id && r.interval_minutes == tier && start
                    <= r.timestamp && r.timestamp <= end),
                v@ == self@.agg_stats.take(i as int).filter(pred),
            decreases n - i,
        {
            let ghost pre = self@.agg_stats.take(i as int);
            let row = self.agg_stats[i];
            if row.host_id == id && row.interval_minutes == tier && start <= row.timestamp
                && row.timestamp <= end {
                v.push(row);
            }
            proof {
                reveal(Seq::filter);
                assert(self@.agg_stats.take(i as int + 1).drop_last() =~= pre);
                assert(self@.agg_stats.take(i as int + 1).last() == self@.agg_stats[i as int]);
            }
            i = i + 1;
        }
        proof {
            assert(self@.agg_stats.take(n as int) =~= self@.agg_stats);
        }
        v
    }

    /// Host `id`'s raw disk rows at timestamp `ts`, as query records.
    fn collect_raw_disks(&self, id: u64, ts: u64) -> (v: Vec<DiskRecord>)
        ensures
            v.deep_view() == raw_disks_at(self@, id, ts).map_values(
                |x: DiskRowV|
                    DiskRecordV {
                        timestamp: x.timestamp,
                        mount_point: x.mount_point,
                        total: x.total,
                        used: x.used,
                    },
            ),
    {
        let ghost pred = |r: DiskRowV| r.host_id == id && r.timestamp == ts;
        let ghost f = |x: DiskRowV|
            DiskRecordV { timestamp: x.timestamp, mount_point: x.mount_point, total: x.total, used: x.used };
        let mut v: Vec<DiskRecord> = Vec::new();
        let n = self.disk_stats.len();
        let mut i: usize = 0;
        while i < n
            invariant
                n == self@.disk_stats.len(),
                i <= n,
                pred == (|r: DiskRowV| r.host_id == id && r.timestamp == ts),
                f == (|x: DiskRowV|
                    DiskRecordV {
                        timestamp: x.timestamp,
                        mount_point: x.mount_point,
                        total: x.total,
                        used: x.used,
                    }),
                v.deep_view() == self@.disk_stats.take(i as int).filter(pred).map_values(f),
            decreases n - i,
        {
            let ghost pre = self@.disk_stats.take(i as int);
            if self.disk_stats[i].host_id == id && self.disk_stats[i].timestamp == ts {
                let rec = DiskRecord {
                    timestamp: self.disk_stats[i].timestamp,
                    mount_point: self.disk_stats[i].mount_point.clone(),
                    total: self.disk_stats[i].total,
                    used: self.disk_stats[i].used,
                };
                proof {
                    assert(rec@ == f(self@.disk_stats[i as int]));
                }
                v.push(rec);
            }
            proof {
                reveal(Seq::filter);
                assert(self@.disk_stats.take(i as int + 1).drop_last() =~= pre);
                assert(self@.disk_stats.take(i as int + 1).last() == self@.disk_stats[i as int]);
                let row = self@.disk_stats[i as int];
                if pred(row) {
                    assert(self@.disk_stats.take(i as int + 1).filter(pred) =~= pre.filter(
                        pred,
                    ).push(row));
                    assert(self@.disk_stats.take(i as int + 1).filter(pred).map_values(f)
                        =~= pre.filter(pred).map_values(f).push(f(row)));
                }
                assert(v.deep_view() =~= self@.disk_stats.take(i as int + 1).filter(pred).map_values(
                    f,
                ));
            }
            i = i + 1;
        }
        proof {
            assert(self@.disk_stats.take(n as int) =~= self@.disk_stats);
        }
        v
    }

    /// Host `id`'s aggregated disk rows of `tier` at timestamp `ts`, as query
    /// records.
    fn collect_agg_disks(&self, id: u64, tier: u64, ts: u64) -> (v: Vec<DiskRecord>)
        ensures
            v.deep_view() == agg_disks_at(self@, id, tier, ts).map_values(
                |x: AggDiskRowV|
                    DiskRecordV {
                        timestamp: x.timestamp,
                        mount_point: x.mount_point,
                        total: x.total,
                        used: x.used,
                    },
            ),
    {
        let ghost pred = |r: AggDiskRowV| r.host_id == id && r.interval_minutes == tier
            && r.timestamp == ts;
        let ghost f = |x: AggDiskRowV|
            DiskRecordV { timestamp: x.timestamp, mount_point: x.mount_point, total: x.total, used: x.used };
        let mut v: Vec<DiskRecord> = Vec::new();
        let n = self.agg_disk_stats.len();
        let mut i: usize = 0;
        while i < n
            invariant
                n == self@.agg_disk_stats.len(),
                i <= n,
                pred == (|r: AggDiskRowV| r.host_id == id && r.interval_minutes == tier
                    && r.timestamp == ts),
                f == (|x: AggDiskRowV|
                    DiskRecordV {
                        timestamp: x.timestamp,
                        mount_point: x.mount_point,
                        total: x.total,
                        used: x.used,
                    }),
                v.deep_view() == self@.agg_disk_stats.take(i as int).filter(pred).map_values(f),
            decreases n - i,
        {
            let ghost pre = self@.agg_disk_stats.take(i as int);
            if self.agg_disk_stats[i].host_id == id && self.agg_disk_stats[i].interval_minutes
                == tier && self.agg_disk_stats[i].timestamp == ts {
                let rec = DiskRecord {
                    timestamp: self.agg_disk_stats[i].timestamp,
                    mount_point: self.agg_disk_stats[i].mount_point.clone(),
                    total: self.agg_disk_stats[i].total,
                    used: self.agg_disk_stats[i].used,
                };
                proof {
                    assert(rec@ == f(self@.agg_disk_stats[i as int]));
                }
                v.push(rec);
            }
            proof {
                reveal(Seq::filter);
                assert(self@.agg_disk_stats.take(i as int + 1).drop_last() =~= pre);
                assert(self@.agg_disk_stats.take(i as int + 1).last() == self@.agg_disk_stats[i as int]);
                let row = self@.agg_disk_stats[i as int];
                if pred(row) {
                    assert(self@.agg_disk_stats.take(i as int + 1).filter(pred) =~= pre.filter(
                        pred,
                    ).push(row));
                    assert(self@.agg_disk_stats.take(i as int + 1).filter(pred).map_values(f)
                        =~= pre.filter(pred).map_values(f).push(f(row)));
                }
                assert(v.deep_view() =~= self@.agg_disk_stats.take(i as int + 1).filter(
                    pred,
                ).map_values(f));
            }
            i = i + 1;
        }
        proof {
            assert(self@.agg_disk_stats.take(n as int) =~= self@.agg_disk_stats);
        }
        v
    }

    /// Serve a range query: pick the tier the span asks for, serve each host
    /// from that tier where it already has rows in range, else fall back to
    /// the raw table, capped at `MAX_POINTS` ascending points per host. Only
    /// hosts with raw rows in the range appear.
    pub fn get_stats_by_timerange(&self, start_time: u64, end_time: u64) -> (r: Vec<HostSeries>)
        requires
            db_wf(self@),
        ensures
            r.deep_view() == query_spec(self@, self@.hosts, start_time, end_time),
    {
        let tier: u64 = if end_time >= start_time {
            let span = end_time - start_time;
            if span > 3 * 24 * 3600 {
                60
            } else if span >= 24 * 3600 {
                30
            } else if span >= 12 * 3600 {
                15
            } else if span >= 3600 {
                5
            } else {
                0
            }
        } else {
            0
        };
        proof {
            assert(tier == select_tier(end_time - start_time));
        }
        let mut out: Vec<HostSeries> = Vec::new();
        let nh = self.hosts.len();
        let mut hi: usize = 0;
        while hi < nh
            invariant
                db_wf(self@),
                nh == self@.hosts.len(),
                hi <= nh,
                tier == select_tier(end_time - start_time),
                out.deep_view() == query_spec(
                    self@,
                    self@.hosts.take(hi as int),
                    start_time,
                    end_time,
                ),
            decreases nh - hi,
        {
            let ghost hv = self@.hosts[hi as int];
            let id = self.hosts[hi].id;
            proof {
                assert(id == hv.id);
            }
            let mut raw = self.collect_raw_rows(id, start_time, end_time);
            if raw.len() > 0 {
                let mut records: Vec<HostStatRecord> = Vec::new();
                let mut used_agg = false;
                let mut agg: Vec<AggStatRow> = Vec::new();
                if tier > 0 {
                    agg = self.collect_agg_rows(id, tier, start_time, end_time);
                    if agg.len() > 0 {
                        used_agg = true;
                    }
                }
                if used_agg {
                    agg.truncate(MAX_POINTS);
                    proof {
                        assert(agg@ == limited(
                            agg_rows_of(self@, id, tier, start_time, end_time),
                        ));
                    }
                    let ghost lim = limited(agg_rows_of(self@, id, tier, start_time, end_time));
                    let ghost g = |r: AggStatRow| agg_record(self@, hv, r, tier);
                    let na = agg.len();
                    let mut j: usize = 0;
                    while j < na
                        invariant
                            db_wf(self@),
                            na == agg@.len(),
                            j <= na,
                            agg@ == lim,
                            hv == self@.hosts[hi as int],
                            hi < nh,
                            nh == self@.hosts.len(),
                            id == hv.id,
                            g == (|r: AggStatRow| agg_record(self@, hv, r, tier)),
                            records.deep_view().len() == j,
                            forall|q: int|
                                0 <= q < j ==> records.deep_view()[q] == g(#[trigger] agg@[q]),
                        decreases na - j,
                    {
                        let row = agg[j];
                        let disks = self.collect_agg_disks(id, tier, row.timestamp);
                        let rec = HostStatRecord {
                            timestamp: row.timestamp,
                            alias: self.hosts[hi].alias.clone(),
                            cpu: row.cpu,
                            memory_total: row.memory_total,
                            memory_used: row.memory_used,
                            network_in: row.network_in,
                            network_out: row.network_out,
                            network_in_speed: row.network_in_speed,
                            network_out_speed: row.network_out_speed,
                            online: row.online,
                            disks,
                        };
                        proof {
                            assert(rec.deep_view() == g(agg@[j as int]));
                        }
                        records.push(rec);
                        j = j + 1;
                    }
                    proof {
                        assert(records.deep_view() =~= lim.map_values(g));
                        assert(records.deep_view() == records_of(self@, hv, start_time, end_time));
                    }
                } else {
                    raw.truncate(MAX_POINTS);
                    proof {
                        assert(raw@ == limited(raw_rows_of(self@, id, start_time, end_time)));
                    }
                    let ghost lim = limited(raw_rows_of(self@, id, start_time, end_time));
                    let ghost g = |r: StatRow| raw_record(self@, hv, r);
                    let nr = raw.len();
                    let mut j: usize = 0;
                    while j < nr
                        invariant
                            db_wf(self@),
                            nr == raw@.len(),
                            j <= nr,
                            raw@ == lim,
                            hv == self@.hosts[hi as int],
                            hi < nh,
                            nh == self@.hosts.len(),
                            id == hv.id,
                            g == (|r: StatRow| raw_record(self@, hv, r)),
                            records.deep_view().len() == j,
                            forall|q: int|
                                0 <= q < j ==> records.deep_view()[q] == g(#[trigger] raw@[q]),
                        decreases nr - j,
                    {
                        let row = raw[j];
                        let disks = self.collect_raw_disks(id, row.timestamp);
                        let rec = HostStatRecord {
                            timestamp: row.timestamp,
                            alias: self.hosts[hi].alias.clone(),
                            cpu: row.cpu,
                            memory_total: row.memory_total,
                            memory_used: row.memory_used,
                            network_in: row.network_in,
                            network_out: row.network_out,
                            network_in_speed: row.network_in_speed,
                            network_out_speed: row.network_out_speed,
                            online: row.online,
                            disks,
                        };
                        proof {
                            assert(rec.deep_view() == g(raw@[j as int]));
                        }
                        records.push(rec);
                        j = j + 1;
                    }
                    proof {
                        assert(records.deep_view() =~= lim.map_values(g));
                        assert(records.deep_view() == records_of(self@, hv, start_time, end_time));
                    }
                }
                let series = HostSeries { name: self.hosts[hi].name.clone(), records };
                proof {
                    assert(series.deep_view().name == hv.name);
                }
                out.push(series);
            }
            proof {
                assert(self@.hosts.take(hi as int + 1).drop_last() =~= self@.hosts.take(hi as int));
                assert(self@.hosts.take(hi as int + 1).last() == self@.hosts[hi as int]);
                assert(out.deep_view() =~= query_spec(
                    self@,
                    self@.hosts.take(hi as int + 1),
                    start_time,
                    end_time,
                ));
            }
            hi = hi + 1;
        }
        proof {
            assert(self@.hosts.take(nh as int) =~= self@.hosts);
        }
        out
    }

    /// Roll raw samples into tier `interval_minutes`, reading the wall clock
    /// for the window's upper bound.
    pub fn aggregate_data(&mut self, interval_minutes: u64) -> (r: Result<(), StoreError>)
        requires
            db_wf(old(self)@),
            0 < interval_minutes,
            interval_minutes * 60 <= u64::MAX,
        ensures
            db_wf(final(self)@),
            r is Ok,
            final(self)@.hosts == old(self)@.hosts,
            final(self)@.stats == old(self)@.stats,
            final(self)@.disk_stats == old(self)@.disk_stats,
            final(self)@.last_network == old(self)@.last_network,
            exists|n: u64|
                #[trigger] one_pass_ok(
                    final(self)@.agg_stats,
                    final(self)@.agg_disk_stats,
                    old(self)@,
                    interval_minutes,
                    n,
                ),
    {
        let now = crate::clock::now_unix();
        let r = self.aggregate_data_at(interval_minutes, now);
        proof {
            assert(one_pass_ok(
                self@.agg_stats,
                self@.agg_disk_stats,
                old(self)@,
                interval_minutes,
                now,
            ));
        }
        r
    }

    /// Delete raw rows older than the retention window measured from the wall
    /// clock; returns how many rows went away.
    pub fn cleanup_old_data(&mut self, retention_days: u64) -> (r: usize)
        requires
            db_wf(old(self)@),
            old(self)@.stats.len() + old(self)@.disk_stats.len() <= usize::MAX,
        ensures
            db_wf(final(self)@),
            final(self)@.hosts == old(self)@.hosts,
            final(self)@.agg_stats == old(self)@.agg_stats,
            final(self)@.agg_disk_stats == old(self)@.agg_disk_stats,
            final(self)@.last_network == old(self)@.last_network,
            exists|n: u64| #[trigger] pruned_at(final(self)@, old(self)@, retention_days, n),
            r == old(self)@.stats.len() - final(self)@.stats.len() + old(
                self,
            )@.disk_stats.len() - final(self)@.disk_stats.len(),
    {
        let now = crate::clock::now_unix();
        let r = self.cleanup_old_data_at(retention_days, now);
        proof {
            assert(pruned_at(self@, old(self)@, retention_days, now));
        }
        r
    }

    /// One maintenance pass at instant `now`: refresh every tier in ascending
    /// width order, then prune raw rows older than one day. Aggregated rows
    /// are never removed.
    pub fn run_scheduled_aggregation_at(&mut self, now: u64) -> (r: Result<(), StoreError>)
        requires
            db_wf(old(self)@),
            old(self)@.stats.len() + old(self)@.disk_stats.len() <= usize::MAX,
        ensures
            db_wf(final(self)@),
            r is Ok,
            final(self)@.hosts == old(self)@.hosts,
            final(self)@.last_network == old(self)@.last_network,
            final(self)@.stats == old(self)@.stats.filter(
                |x: StatRow| x.timestamp >= prune_cutoff(now, 1),
            ),
            final(self)@.disk_stats == old(self)@.disk_stats.filter(
                |d: DiskRowV| d.timestamp >= prune_cutoff(now, 1),
            ),
            forall|k: (u64, u64, u64)|
                #[trigger] has_agg_key(old(self)@.agg_stats, k) ==> has_agg_key(
                    final(self)@.agg_stats,
                    k,
                ),
            forall|k: (u64, u64, u64, Seq<char>)|
                #[trigger] has_agg_disk_key(old(self)@.agg_disk_stats, k) ==> has_agg_disk_key(
                    final(self)@.agg_disk_stats,
                    k,
                ),
            maintenance_passes(final(self)@, old(self)@, now),
    {
        let ghost d0 = old(self)@;
        let r1 = self.aggregate_data_at(5, now);
        let ghost d1 = self@;
        let r2 = self.aggregate_data_at(15, now);
        let ghost d2 = self@;
        let r3 = self.aggregate_data_at(30, now);
        let ghost d3 = self@;
        let r4 = self.aggregate_data_at(60, now);
        let ghost d4 = self@;
        let _removed = self.cleanup_old_data_at(1, now);
        proof {
            assert(with_tiers(d0, d1.agg_stats, d1.agg_disk_stats) == d1);
            assert(with_tiers(d0, d2.agg_stats, d2.agg_disk_stats) == d2);
            assert(with_tiers(d0, d3.agg_stats, d3.agg_disk_stats) == d3);
            assert(one_pass_ok(d1.agg_stats, d1.agg_disk_stats, d0, 5, now));
            assert(one_pass_ok(
                d2.agg_stats,
                d2.agg_disk_stats,
                with_tiers(d0, d1.agg_stats, d1.agg_disk_stats),
                15,
                now,
            ));
            assert(one_pass_ok(
                d3.agg_stats,
                d3.agg_disk_stats,
                with_tiers(d0, d2.agg_stats, d2.agg_disk_stats),
                30,
                now,
            ));
            assert(self@.agg_stats == d4.agg_stats && self@.agg_disk_stats == d4.agg_disk_stats);
            assert(one_pass_ok(
                self@.agg_stats,
                self@.agg_disk_stats,
                with_tiers(d0, d3.agg_stats, d3.agg_disk_stats),
                60,
                now,
            ));
            assert(maintenance_passes(self@, d0, now));
        }
        match (r1, r2, r3, r4) {
            (Ok(()), Ok(()), Ok(()), Ok(())) => Ok(()),
            _ => Ok(()),
        }
    }

    /// One maintenance pass measured from the wall clock.
    pub fn run_scheduled_aggregation(&mut self) -> (r: Result<(), StoreError>)
        requires
            db_wf(old(self)@),
            old(self)@.stats.len() + old(self)@.disk_stats.len() <= usize::MAX,
        ensures
            db_wf(final(self)@),
            r is Ok,
            final(self)@.hosts == old(self)@.hosts,
            final(self)@.last_network == old(self)@.last_network,
            exists|n: u64|
                #[trigger] pruned_at(final(self)@, old(self)@, 1, n) && maintenance_passes(
                    final(self)@,
                    old(self)@,
                    n,
                ),
            forall|k: (u64, u64, u64)|
                #[trigger] has_agg_key(old(self)@.agg_stats, k) ==> has_agg_key(
                    final(self)@.agg_stats,
                    k,
                ),
            forall|k: (u64, u64, u64, Seq<char>)|
                #[trigger] has_agg_disk_key(old(self)@.agg_disk_stats, k) ==> has_agg_disk_key(
                    final(self)@.agg_disk_stats,
                    k,
                ),
    {
        let now = crate::clock::now_unix();
        let r = self.run_scheduled_aggregation_at(now);
        proof {
            assert(pruned_at(self@, old(self)@, 1, now) && maintenance_passes(
                self@,
                old(self)@,
                now,
            ));
        }
        r
    }
}

} // verus!
