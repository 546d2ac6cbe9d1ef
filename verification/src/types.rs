use vstd::prelude::*;

verus! {

/// One mounted filesystem as an agent reports it.
pub struct DiskUsage {
    pub name: String,
    pub mount_point: String,
    pub file_system: String,
    pub total: u64,
    pub used: u64,
    pub free: u64,
}

/// Mathematical image of a [`DiskUsage`].
pub struct DiskUsageV {
    pub name: Seq<char>,
    pub mount_point: Seq<char>,
    pub file_system: Seq<char>,
    pub total: u64,
    pub used: u64,
    pub free: u64,
}

impl View for DiskUsage {
    type V = DiskUsageV;

    open spec fn view(&self) -> DiskUsageV {
        DiskUsageV {
            name: self.name@,
            mount_point: self.mount_point@,
            file_system: self.file_system@,
            total: self.total,
            used: self.used,
            free: self.free,
        }
    }
}

impl DeepView for DiskUsage {
    type V = DiskUsageV;

    open spec fn deep_view(&self) -> DiskUsageV {
        self.view()
    }
}

impl Clone for DiskUsage {
    fn clone(&self) -> (res: Self)
        ensures
            res@ == self@,
    {
        DiskUsage {
            name: self.name.clone(),
            mount_point: self.mount_point.clone(),
            file_system: self.file_system.clone(),
            total: self.total,
            used: self.used,
            free: self.free,
        }
    }
}

/// Static description of the reporting machine; the sweep reads only
/// `os_name` and `os_release`, the rest is carried through for readers.
pub struct SysInfo {
    pub version: String,
    pub host_name: String,
    pub os_name: String,
    pub os_arch: String,
    pub os_family: String,
    pub os_release: String,
    pub kernel_version: String,
    pub cpu_num: u64,
    pub cpu_brand: String,
    pub cpu_vender_id: String,
}

/// Mathematical image of a [`SysInfo`].
pub struct SysInfoV {
    pub version: Seq<char>,
    pub host_name: Seq<char>,
    pub os_name: Seq<char>,
    pub os_arch: Seq<char>,
    pub os_family: Seq<char>,
    pub os_release: Seq<char>,
    pub kernel_version: Seq<char>,
    pub cpu_num: u64,
    pub cpu_brand: Seq<char>,
    pub cpu_vender_id: Seq<char>,
}

impl View for SysInfo {
    type V = SysInfoV;

    open spec fn view(&self) -> SysInfoV {
        SysInfoV {
            version: self.version@,
            host_name: self.host_name@,
            os_name: self.os_name@,
            os_arch: self.os_arch@,
            os_family: self.os_family@,
            os_release: self.os_release@,
            kernel_version: self.kernel_version@,
            cpu_num: self.cpu_num,
            cpu_brand: self.cpu_brand@,
            cpu_vender_id: self.cpu_vender_id@,
        }
    }
}

impl DeepView for SysInfo {
    type V = SysInfoV;

    open spec fn deep_view(&self) -> SysInfoV {
        self.view()
    }
}

impl Clone for SysInfo {
    fn clone(&self) -> (res: Self)
        ensures
            res@ == self@,
    {
        SysInfo {
            version: self.version.clone(),
            host_name: self.host_name.clone(),
            os_name: self.os_name.clone(),
            os_arch: self.os_arch.clone(),
            os_family: self.os_family.clone(),
            os_release: self.os_release.clone(),
            kernel_version: self.kernel_version.clone(),
            cpu_num: self.cpu_num,
            cpu_brand: self.cpu_brand.clone(),
            cpu_vender_id: self.cpu_vender_id.clone(),
        }
    }
}

/// Geolocation enrichment for a host; opaque to the core, sticky across
/// reports that omit it.
pub struct IpInfo {
    pub query: String,
    pub continent: String,
    pub country: String,
    pub region_name: String,
    pub city: String,
    pub isp: String,
    pub org: String,
    pub asn: String,
    pub asname: String,
}

/// Mathematical image of an [`IpInfo`].
pub struct IpInfoV {
    pub query: Seq<char>,
    pub continent: Seq<char>,
    pub country: Seq<char>,
    pub region_name: Seq<char>,
    pub city: Seq<char>,
    pub isp: Seq<char>,
    pub org: Seq<char>,
    pub asn: Seq<char>,
    pub asname: Seq<char>,
}

impl View for IpInfo {
    type V = IpInfoV;

    open spec fn view(&self) -> IpInfoV {
        IpInfoV {
            query: self.query@,
            continent: self.continent@,
            country: self.country@,
            region_name: self.region_name@,
            city: self.city@,
            isp: self.isp@,
            org: self.org@,
            asn: self.asn@,
            asname: self.asname@,
        }
    }
}

impl DeepView for IpInfo {
    type V = IpInfoV;

    open spec fn deep_view(&self) -> IpInfoV {
        self.view()
    }
}

impl Clone for IpInfo {
    fn clone(&self) -> (res: Self)
        ensures
            res@ == self@,
    {
        IpInfo {
            query: self.query.clone(),
            continent: self.continent.clone(),
            country: self.country.clone(),
            region_name: self.region_name.clone(),
            city: self.city.clone(),
            isp: self.isp.clone(),
            org: self.org.clone(),
            asn: self.asn.clone(),
            asname: self.asname.clone(),
        }
    }
}

/// One telemetry report from an agent, and also the live-map entry that the
/// reconciliation engine derives from it. CPU load is an integer percentage.
pub struct HostStat {
    pub name: String,
    pub alias: String,
    pub gid: String,
    pub location: String,
    pub host_type: String,
    pub labels: String,
    pub pos: u64,
    pub weight: u64,
    pub notify: bool,
    pub vnstat: bool,
    pub disabled: bool,
    pub online4: bool,
    pub online6: bool,
    pub si: bool,
    pub latest_ts: u64,
    pub uptime: u64,
    pub uptime_str: String,
    pub cpu: u64,
    pub memory_total: u64,
    pub memory_used: u64,
    pub network_in: u64,
    pub network_out: u64,
    pub network_rx: u64,
    pub network_tx: u64,
    pub last_network_in: u64,
    pub last_network_out: u64,
    pub disks: Vec<DiskUsage>,
    pub sys_info: Option<SysInfo>,
    pub ip_info: Option<IpInfo>,
}

/// Mathematical image of a [`HostStat`].
pub struct HostStatV {
    pub name: Seq<char>,
    pub alias: Seq<char>,
    pub gid: Seq<char>,
    pub location: Seq<char>,
    pub host_type: Seq<char>,
    pub labels: Seq<char>,
    pub pos: u64,
    pub weight: u64,
    pub notify: bool,
    pub vnstat: bool,
    pub disabled: bool,
    pub online4: bool,
    pub online6: bool,
    pub si: bool,
    pub latest_ts: u64,
    pub uptime: u64,
    pub uptime_str: Seq<char>,
    pub cpu: u64,
    pub memory_total: u64,
    pub memory_used: u64,
    pub network_in: u64,
    pub network_out: u64,
    pub network_rx: u64,
    pub network_tx: u64,
    pub last_network_in: u64,
    pub last_network_out: u64,
    pub disks: Seq<DiskUsageV>,
    pub sys_info: Option<SysInfoV>,
    pub ip_info: Option<IpInfoV>,
}

impl View for HostStat {
    type V = HostStatV;

    open spec fn view(&self) -> HostStatV {
        HostStatV {
            name: self.name@,
            alias: self.alias@,
            gid: self.gid@,
            location: self.location@,
            host_type: self.host_type@,
            labels: self.labels@,
            pos: self.pos,
            weight: self.weight,
            notify: self.notify,
            vnstat: self.vnstat,
            disabled: self.disabled,
            online4: self.online4,
            online6: self.online6,
            si: self.si,
            latest_ts: self.latest_ts,
            uptime: self.uptime,
            uptime_str: self.uptime_str@,
            cpu: self.cpu,
            memory_total: self.memory_total,
            memory_used: self.memory_used,
            network_in: self.network_in,
            network_out: self.network_out,
            network_rx: self.network_rx,
            network_tx: self.network_tx,
            last_network_in: self.last_network_in,
            last_network_out: self.last_network_out,
            disks: self.disks.deep_view(),
            sys_info: self.sys_info.deep_view(),
            ip_info: self.ip_info.deep_view(),
        }
    }
}

impl DeepView for HostStat {
    type V = HostStatV;

    open spec fn deep_view(&self) -> HostStatV {
        self.view()
    }
}

impl Clone for HostStat {
    fn clone(&self) -> (res: Self)
        ensures
            res@ == self@,
    {
        let mut disks: Vec<DiskUsage> = Vec::new();
        let mut i: usize = 0;
        while i < self.disks.len()
            invariant
                i <= self.disks.len(),
                disks@.len() == i,
                forall|j: int| 0 <= j < i ==> #[trigger] disks@[j]@ == self.disks@[j]@,
            decreases self.disks.len() - i,
        {
            disks.push(self.disks[i].clone());
            i = i + 1;
        }
        proof {
            assert(disks.deep_view() =~= self.disks.deep_view());
        }
        let sys_info = match &self.sys_info {
            Some(s) => Some(s.clone()),
            None => None,
        };
        let ip_info = match &self.ip_info {
            Some(p) => Some(p.clone()),
            None => None,
        };
        HostStat {
            name: self.name.clone(),
            alias: self.alias.clone(),
            gid: self.gid.clone(),
            location: self.location.clone(),
            host_type: self.host_type.clone(),
            labels: self.labels.clone(),
            pos: self.pos,
            weight: self.weight,
            notify: self.notify,
            vnstat: self.vnstat,
            disabled: self.disabled,
            online4: self.online4,
            online6: self.online6,
            si: self.si,
            latest_ts: self.latest_ts,
            uptime: self.uptime,
            uptime_str: self.uptime_str.clone(),
            cpu: self.cpu,
            memory_total: self.memory_total,
            memory_used: self.memory_used,
            network_in: self.network_in,
            network_out: self.network_out,
            network_rx: self.network_rx,
            network_tx: self.network_tx,
            last_network_in: self.last_network_in,
            last_network_out: self.last_network_out,
            disks,
            sys_info,
            ip_info,
        }
    }
}

/// Registry entry: per-host configuration merged into every report.
pub struct HostConfig {
    pub name: String,
    pub alias: String,
    pub gid: String,
    pub location: String,
    pub host_type: String,
    pub labels: String,
    pub pos: u64,
    pub weight: u64,
    pub notify: bool,
    pub disabled: bool,
    pub monthstart: u32,
    pub last_network_in: u64,
    pub last_network_out: u64,
    pub latest_ts: u64,
}

/// Mathematical image of a [`HostConfig`].
pub struct HostConfigV {
    pub name: Seq<char>,
    pub alias: Seq<char>,
    pub gid: Seq<char>,
    pub location: Seq<char>,
    pub host_type: Seq<char>,
    pub labels: Seq<char>,
    pub pos: u64,
    pub weight: u64,
    pub notify: bool,
    pub disabled: bool,
    pub monthstart: u32,
    pub last_network_in: u64,
    pub last_network_out: u64,
    pub latest_ts: u64,
}

impl View for HostConfig {
    type V = HostConfigV;

    open spec fn view(&self) -> HostConfigV {
        HostConfigV {
            name: self.name@,
            alias: self.alias@,
            gid: self.gid@,
            location: self.location@,
            host_type: self.host_type@,
            labels: self.labels@,
            pos: self.pos,
            weight: self.weight,
            notify: self.notify,
            disabled: self.disabled,
            monthstart: self.monthstart,
            last_network_in: self.last_network_in,
            last_network_out: self.last_network_out,
            latest_ts: self.latest_ts,
        }
    }
}

impl DeepView for HostConfig {
    type V = HostConfigV;

    open spec fn deep_view(&self) -> HostConfigV {
        self.view()
    }
}

impl Clone for HostConfig {
    fn clone(&self) -> (res: Self)
        ensures
            res@ == self@,
    {
        HostConfig {
            name: self.name.clone(),
            alias: self.alias.clone(),
            gid: self.gid.clone(),
            location: self.location.clone(),
            host_type: self.host_type.clone(),
            labels: self.labels.clone(),
            pos: self.pos,
            weight: self.weight,
            notify: self.notify,
            disabled: self.disabled,
            monthstart: self.monthstart,
            last_network_in: self.last_network_in,
            last_network_out: self.last_network_out,
            latest_ts: self.latest_ts,
        }
    }
}

/// Group template: instantiates an ephemeral registry entry the first time an
/// unknown host reports under the group's id.
pub struct HostGroup {
    pub gid: String,
    pub location: String,
    pub host_type: String,
    pub labels: String,
    pub pos: u64,
    pub weight: u64,
    pub notify: bool,
    pub monthstart: u32,
}

/// Mathematical image of a [`HostGroup`].
pub struct HostGroupV {
    pub gid: Seq<char>,
    pub location: Seq<char>,
    pub host_type: Seq<char>,
    pub labels: Seq<char>,
    pub pos: u64,
    pub weight: u64,
    pub notify: bool,
    pub monthstart: u32,
}

impl View for HostGroup {
    type V = HostGroupV;

    open spec fn view(&self) -> HostGroupV {
        HostGroupV {
            gid: self.gid@,
            location: self.location@,
            host_type: self.host_type@,
            labels: self.labels@,
            pos: self.pos,
            weight: self.weight,
            notify: self.notify,
            monthstart: self.monthstart,
        }
    }
}

impl DeepView for HostGroup {
    type V = HostGroupV;

    open spec fn deep_view(&self) -> HostGroupV {
        self.view()
    }
}

impl Clone for HostGroup {
    fn clone(&self) -> (res: Self)
        ensures
            res@ == self@,
    {
        HostGroup {
            gid: self.gid.clone(),
            location: self.location.clone(),
            host_type: self.host_type.clone(),
            labels: self.labels.clone(),
            pos: self.pos,
            weight: self.weight,
            notify: self.notify,
            monthstart: self.monthstart,
        }
    }
}

/// The registry entry that a group template yields for host `name` whose
/// first report under this group arrived at `latest_ts`.
pub open spec fn spec_inst_host(g: HostGroupV, name: Seq<char>, latest_ts: u64) -> HostConfigV {
    HostConfigV {
        name,
        alias: Seq::empty(),
        gid: g.gid,
        location: g.location,
        host_type: g.host_type,
        labels: g.labels,
        pos: g.pos,
        weight: g.weight,
        notify: g.notify,
        disabled: false,
        monthstart: g.monthstart,
        last_network_in: 0,
        last_network_out: 0,
        latest_ts,
    }
}

impl HostGroup {
    /// Instantiate a registry entry for `name` from this template.
    pub fn inst_host(&self, name: &str, latest_ts: u64) -> (res: HostConfig)
        ensures
            res@ == spec_inst_host(self@, name@, latest_ts),
    {
        HostConfig {
            name: String::from_str(name),
            alias: String::new(),
            gid: self.gid.clone(),
            location: self.location.clone(),
            host_type: self.host_type.clone(),
            labels: self.labels.clone(),
            pos: self.pos,
            weight: self.weight,
            notify: self.notify,
            disabled: false,
            monthstart: self.monthstart,
            last_network_in: 0,
            last_network_out: 0,
            latest_ts,
        }
    }
}

/// The kinds of notification event the core raises.
#[derive(Clone, Copy, Debug, PartialEq, Eq, Structural)]
pub enum EventKind {
    NodeUp,
    NodeDown,
    Custom,
}

/// Why the reconciliation engine dropped (or kept) a report.
#[derive(Clone, Copy, Debug, PartialEq, Eq, Structural)]
pub enum ReportOutcome {
    Accepted,
    GroupNotFound,
    UnregisteredHost,
    DisabledHost,
}

/// Published fleet snapshot: immutable once built, sorted by weight
/// descending, then position ascending, then alias ascending.
pub struct StatsResp {
    pub updated: u64,
    pub servers: Vec<HostStat>,
}

/// Mathematical image of a [`StatsResp`].
pub struct StatsRespV {
    pub updated: u64,
    pub servers: Seq<HostStatV>,
}

impl View for StatsResp {
    type V = StatsRespV;

    open spec fn view(&self) -> StatsRespV {
        StatsRespV { updated: self.updated, servers: self.servers.deep_view() }
    }
}

impl Clone for StatsResp {
    fn clone(&self) -> (res: Self)
        ensures
            res@ == self@,
    {
        let mut servers: Vec<HostStat> = Vec::new();
        let mut i: usize = 0;
        while i < self.servers.len()
            invariant
                i <= self.servers.len(),
                servers@.len() == i,
                forall|j: int| 0 <= j < i ==> #[trigger] servers@[j]@ == self.servers@[j]@,
            decreases self.servers.len() - i,
        {
            servers.push(self.servers[i].clone());
            i = i + 1;
        }
        proof {
            assert(servers.deep_view() =~= self.servers.deep_view());
        }
        StatsResp { updated: self.updated, servers }
    }
}

/// Global tunables the engine and the sweep consult.
#[derive(Clone, Copy)]
pub struct Tunables {
    pub offline_threshold: u64,
    pub notify_interval: u64,
    pub group_gc: u64,
}

} // verus!
