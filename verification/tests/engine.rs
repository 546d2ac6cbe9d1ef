use stat_server::stats::StatsMgr;
use stat_server::types::IpInfo;
use stat_server::types::{EventKind, HostConfig, HostGroup, HostStat, ReportOutcome, SysInfo, Tunables};

fn mk_cfg(name: &str, weight: u64, notify: bool) -> HostConfig {
    HostConfig {
        name: name.to_string(),
        alias: String::new(),
        gid: String::new(),
        location: String::new(),
        host_type: String::new(),
        labels: String::new(),
        pos: 0,
        weight,
        notify,
        disabled: false,
        monthstart: 0,
        last_network_in: 0,
        last_network_out: 0,
        latest_ts: 0,
    }
}

fn mk_stat(name: &str, ts: u64, net_in: u64, net_out: u64) -> HostStat {
    HostStat {
        name: name.to_string(),
        alias: String::new(),
        gid: String::new(),
        location: String::new(),
        host_type: String::new(),
        labels: String::new(),
        pos: 0,
        weight: 0,
        notify: true,
        vnstat: false,
        disabled: false,
        online4: true,
        online6: false,
        si: true,
        latest_ts: ts,
        uptime: 3700,
        uptime_str: String::new(),
        cpu: 10,
        memory_total: 1000,
        memory_used: 500,
        network_in: net_in,
        network_out: net_out,
        network_rx: 10,
        network_tx: 20,
        last_network_in: 0,
        last_network_out: 0,
        disks: Vec::new(),
        sys_info: None,
        ip_info: None,
    }
}

fn tun(thr: u64, ni: u64, gc: u64) -> Tunables {
    Tunables { offline_threshold: thr, notify_interval: ni, group_gc: gc }
}

fn mgr_with(cfgs: Vec<HostConfig>, groups: Vec<HostGroup>, t: Tunables) -> StatsMgr {
    StatsMgr::new(t, cfgs, groups)
}

#[test]
fn unregistered_host_is_dropped() {
    let mut m = mgr_with(vec![], vec![], tun(30, 30, 3600));
    let (out, ev) = m.report_at(mk_stat("nobody", 10, 1, 1), 10, 1, 12, 0);
    assert_eq!(out, ReportOutcome::UnregisteredHost);
    assert!(ev.is_none());
    assert_eq!(m.stat_map.len(), 0);
}

#[test]
fn disabled_host_is_dropped_silently() {
    let mut cfg = mk_cfg("h1", 0, true);
    cfg.disabled = true;
    let mut m = mgr_with(vec![cfg], vec![], tun(30, 30, 3600));
    let (out, _) = m.report_at(mk_stat("h1", 10, 1, 1), 10, 1, 12, 0);
    assert_eq!(out, ReportOutcome::DisabledHost);
    assert_eq!(m.stat_map.len(), 0);
}

#[test]
fn unknown_group_is_dropped() {
    let mut m = mgr_with(vec![], vec![], tun(30, 30, 3600));
    let mut s = mk_stat("hg", 10, 1, 1);
    s.gid = "g404".to_string();
    let (out, _) = m.report_at(s, 10, 1, 12, 0);
    assert_eq!(out, ReportOutcome::GroupNotFound);
    assert_eq!(m.hosts_map.len(), 0);
}

#[test]
fn counter_reset_sequence_tracks_anchor() {
    // cumulative counters 100, 150, 40, 90: the third report resets
    let mut m = mgr_with(vec![mk_cfg("h1", 0, false)], vec![], tun(30, 30, 3600));
    let (out, _) = m.report_at(mk_stat("h1", 1, 100, 100), 1, 1, 12, 0);
    assert_eq!(out, ReportOutcome::Accepted);
    assert_eq!(m.hosts_map[0].last_network_in, 100); // first sample anchors
    let (_, _) = m.report_at(mk_stat("h1", 2, 150, 150), 2, 1, 12, 0);
    assert_eq!(m.hosts_map[0].last_network_in, 100); // counter grew: anchor kept
    assert_eq!(m.stat_map[0].last_network_in, 100); // exposed anchor
    assert!(m.stat_map[0].network_in >= m.stat_map[0].last_network_in);
    let (_, _) = m.report_at(mk_stat("h1", 3, 40, 40), 3, 1, 12, 0);
    assert_eq!(m.hosts_map[0].last_network_in, 40); // went backward: reset
    let (_, _) = m.report_at(mk_stat("h1", 4, 90, 90), 4, 1, 12, 0);
    assert_eq!(m.hosts_map[0].last_network_in, 40); // tracks from 40 onward
    assert_eq!(m.stat_map[0].last_network_in, 40);
    assert!(m.stat_map[0].network_in >= m.stat_map[0].last_network_in);
}

#[test]
fn monthly_reset_fires_in_first_five_minutes() {
    let mut cfg = mk_cfg("h1", 0, false);
    cfg.monthstart = 5;
    let mut m = mgr_with(vec![cfg], vec![], tun(30, 30, 3600));
    let (_, _) = m.report_at(mk_stat("h1", 1, 100, 100), 1, 1, 12, 0);
    let (_, _) = m.report_at(mk_stat("h1", 2, 150, 150), 2, 1, 12, 0);
    assert_eq!(m.hosts_map[0].last_network_in, 100);
    // day 5, hour 0, minute 4: the monthly reset re-anchors even though the
    // counter grew
    let (_, _) = m.report_at(mk_stat("h1", 3, 180, 180), 3, 5, 0, 4);
    assert_eq!(m.hosts_map[0].last_network_in, 180);
}

#[test]
fn vnstat_reports_skip_counter_handling() {
    let mut m = mgr_with(vec![mk_cfg("h1", 0, false)], vec![], tun(30, 30, 3600));
    let mut s = mk_stat("h1", 1, 100, 100);
    s.vnstat = true;
    s.last_network_in = 77;
    let (out, _) = m.report_at(s, 1, 1, 12, 0);
    assert_eq!(out, ReportOutcome::Accepted);
    assert_eq!(m.hosts_map[0].last_network_in, 0); // anchor untouched
    assert_eq!(m.stat_map[0].last_network_in, 77); // report's own value kept
}

#[test]
fn node_up_event_after_offline_gap() {
    let mut m = mgr_with(vec![mk_cfg("h1", 0, true)], vec![], tun(30, 30, 3600));
    let (_, ev1) = m.report_at(mk_stat("h1", 100, 1, 1), 100, 1, 12, 0);
    assert!(ev1.is_none());
    // 31 seconds of silence exceeds the 30-second threshold
    let (_, ev2) = m.report_at(mk_stat("h1", 131, 2, 2), 131, 1, 12, 0);
    let n = ev2.expect("a node-up notice");
    assert_eq!(n.kind, EventKind::NodeUp);
    assert_eq!(n.stat.name, "h1");
    // a prompt report raises nothing
    let (_, ev3) = m.report_at(mk_stat("h1", 140, 3, 3), 140, 1, 12, 0);
    assert!(ev3.is_none());
}

#[test]
fn uptime_string_forms() {
    let mut m = mgr_with(vec![mk_cfg("h1", 0, false)], vec![], tun(30, 30, 3600));
    let mut s = mk_stat("h1", 1, 1, 1);
    s.uptime = 3700; // 01:01:40
    let (_, _) = m.report_at(s, 1, 1, 12, 0);
    assert_eq!(m.stat_map[0].uptime_str, "01:01:40");
    let mut s2 = mk_stat("h1", 2, 2, 2);
    s2.uptime = 3 * 86400 + 5;
    let (_, _) = m.report_at(s2, 2, 1, 12, 0);
    assert_eq!(m.stat_map[0].uptime_str, "3 \u{5929}");
}

#[test]
fn ip_info_is_sticky_across_reports() {
    let mut m = mgr_with(vec![mk_cfg("h1", 0, false)], vec![], tun(30, 30, 3600));
    let mut s = mk_stat("h1", 1, 1, 1);
    s.ip_info = Some(IpInfo {
        query: "198.51.100.7".to_string(),
        continent: String::new(),
        country: String::new(),
        region_name: String::new(),
        city: String::new(),
        isp: String::new(),
        org: String::new(),
        asn: String::new(),
        asname: String::new(),
    });
    let (_, _) = m.report_at(s, 1, 1, 12, 0);
    let (_, _) = m.report_at(mk_stat("h1", 2, 2, 2), 2, 1, 12, 0);
    assert_eq!(m.stat_map[0].ip_info.as_ref().unwrap().query, "198.51.100.7");
}

#[test]
fn snapshot_is_sorted_by_weight_pos_alias() {
    let mut m = mgr_with(
        vec![mk_cfg("a", 1, false), mk_cfg("b", 5, false), mk_cfg("c", 5, false)],
        vec![],
        tun(30, 30, 3600),
    );
    let mut sa = mk_stat("a", 10, 1, 1);
    sa.alias = "zeta".to_string();
    let mut sb = mk_stat("b", 10, 1, 1);
    sb.alias = "beta".to_string();
    let mut sc = mk_stat("c", 10, 1, 1);
    sc.alias = "alpha".to_string();
    m.report_at(sa, 10, 1, 12, 0);
    m.report_at(sb, 10, 1, 12, 0);
    m.report_at(sc, 10, 1, 12, 0);
    m.sweep_at(11);
    let snap = m.get_stats();
    assert_eq!(snap.updated, 11);
    let order: Vec<String> = snap.servers.iter().map(|s| s.alias.clone()).collect();
    // weight 5 first (alias tie-break ascending), weight 1 last
    assert_eq!(order, vec!["alpha", "beta", "zeta"]);
}

#[test]
fn offline_transition_exactly_after_threshold() {
    let mut m = mgr_with(vec![mk_cfg("h1", 0, false)], vec![], tun(30, 1000, 100_000));
    m.report_at(mk_stat("h1", 100, 1, 1), 100, 1, 12, 0);
    // at now = 130 the gap equals the threshold: still online
    m.sweep_at(130);
    assert!(m.stat_map[0].online4);
    // at now = 131 the threshold has elapsed: offline
    m.sweep_at(131);
    assert!(!m.stat_map[0].online4);
    assert!(!m.stat_map[0].online6);
}

#[test]
fn os_label_is_inferred_once() {
    let mut m = mgr_with(vec![mk_cfg("h1", 0, false)], vec![], tun(1000, 1000, 100_000));
    let mut s = mk_stat("h1", 100, 1, 1);
    s.sys_info = Some(SysInfo {
        version: String::new(),
        host_name: String::new(),
        os_name: "GNU/Linux".to_string(),
        os_arch: String::new(),
        os_family: String::new(),
        os_release: "Ubuntu 22.04.3 LTS".to_string(),
        kernel_version: String::new(),
        cpu_num: 4,
        cpu_brand: String::new(),
        cpu_vender_id: String::new(),
    });
    m.report_at(s, 100, 1, 12, 0);
    m.sweep_at(101);
    assert_eq!(m.stat_map[0].labels, "os=ubuntu");
    // a second sweep does not append it twice
    m.sweep_at(102);
    assert_eq!(m.stat_map[0].labels, "os=ubuntu");
}

#[test]
fn debounced_notifications_fire_together() {
    let mut m = mgr_with(
        vec![mk_cfg("up", 0, true), mk_cfg("down", 0, true)],
        vec![],
        tun(30, 60, 100_000),
    );
    m.report_at(mk_stat("up", 1000, 1, 1), 1000, 1, 12, 0);
    m.report_at(mk_stat("down", 100, 1, 1), 1000, 1, 12, 0);
    // notifications are due (none were sent before); "down" has been silent long enough
    let ev = m.sweep_at(1005);
    assert_eq!(ev.len(), 2);
    assert_eq!(ev[0].kind, EventKind::Custom);
    assert_eq!(ev[0].stat.name, "up");
    assert_eq!(ev[1].kind, EventKind::NodeDown);
    assert_eq!(ev[1].stat.name, "down");
    assert!(m.stat_map[1].disabled); // a downed host is disabled
    // the debounce interval has not elapsed: a second sweep notifies nobody
    let ev2 = m.sweep_at(1006);
    assert_eq!(ev2.len(), 0);
}

#[test]
fn group_host_is_instantiated_and_collected() {
    let g = HostGroup {
        gid: "g1".to_string(),
        location: "eu".to_string(),
        host_type: "kvm".to_string(),
        labels: String::new(),
        pos: 0,
        weight: 0,
        notify: false,
        monthstart: 0,
    };
    let mut m = mgr_with(vec![], vec![g], tun(30, 1000, 600));
    let mut s = mk_stat("hg", 100, 1, 1);
    s.gid = "g1".to_string();
    let (out, _) = m.report_at(s, 100, 1, 12, 0);
    assert_eq!(out, ReportOutcome::Accepted);
    assert_eq!(m.hosts_map.len(), 1);
    assert_eq!(m.hosts_map[0].gid, "g1");
    assert_eq!(m.hosts_map[0].location, "eu");
    assert_eq!(m.stat_map.len(), 1);
    assert_eq!(m.stat_map[0].alias, "hg"); // alias defaults to the name
    // after the GC window with no further reports, both maps drop the host
    let _ = m.sweep_at(100 + 601);
    assert_eq!(m.hosts_map.len(), 0);
    assert_eq!(m.stat_map.len(), 0);
}

#[test]
fn init_loads_stored_anchors() {
    let mut m = mgr_with(vec![mk_cfg("h1", 0, false)], vec![], tun(30, 30, 3600));
    m.report_at(mk_stat("h1", 1, 500, 300), 1, 1, 12, 0);
    assert_eq!(m.hosts_map[0].last_network_in, 500);
    // the very first report already persists its anchor durably
    assert_eq!(m.db.last_network.len(), 1);
    assert_eq!(m.db.last_network[0].network_in, 500);
    assert_eq!(m.db.last_network[0].network_out, 300);
    // a counter that went backward resets the durable anchor too
    m.report_at(mk_stat("h1", 2, 90, 70), 2, 1, 12, 0);
    assert_eq!(m.db.last_network.len(), 1);
    assert_eq!(m.db.last_network[0].network_in, 90);
    // wipe the registry anchor, then reload it from the store
    m.hosts_map[0].last_network_in = 0;
    m.hosts_map[0].last_network_out = 0;
    m.init();
    assert_eq!(m.hosts_map[0].last_network_in, 90);
    assert_eq!(m.hosts_map[0].last_network_out, 70);
}

#[test]
fn end_to_end_two_reports_and_range_query() {
    let mut m = mgr_with(vec![mk_cfg("h1", 1, true)], vec![], tun(30, 30, 3600));
    let mut s1 = mk_stat("h1", 0, 1000, 500);
    s1.cpu = 10;
    let (out1, _) = m.report_at(s1, 0, 1, 12, 0);
    assert_eq!(out1, ReportOutcome::Accepted);
    let mut s2 = mk_stat("h1", 5, 1200, 600);
    s2.cpu = 10;
    let (out2, _) = m.report_at(s2, 5, 1, 12, 0);
    assert_eq!(out2, ReportOutcome::Accepted);
    // stored raw samples at t=0 and t=5 with the reported counters
    assert_eq!(m.db.stats.len(), 2);
    assert_eq!(m.db.stats[0].timestamp, 0);
    assert_eq!(m.db.stats[0].network_in, 1000);
    assert_eq!(m.db.stats[1].timestamp, 5);
    assert_eq!(m.db.stats[1].network_in, 1200);
    // the anchor stays at 1000 since the counter only grew, and the counter
    // table holds it durably from the first report on
    assert_eq!(m.hosts_map[0].last_network_in, 1000);
    let anchors = m.db.get_last_network_data();
    assert_eq!(anchors.len(), 1);
    assert_eq!(anchors[0].0, "h1");
    assert_eq!(anchors[0].1, 1000);
    assert_eq!(anchors[0].2, 500);
    // the range query returns exactly these two points, ascending
    let out = m.db.get_stats_by_timerange(0, 5);
    assert_eq!(out.len(), 1);
    assert_eq!(out[0].records.len(), 2);
    assert_eq!(out[0].records[0].timestamp, 0);
    assert_eq!(out[0].records[0].network_in, 1000);
    assert_eq!(out[0].records[1].timestamp, 5);
    assert_eq!(out[0].records[1].network_in, 1200);
    // the reshaped response carries the same points
    let hist = m.get_stats_by_timerange(0, 5);
    assert_eq!(hist.servers.len(), 1);
    assert_eq!(hist.servers[0].name, "h1");
    assert_eq!(hist.servers[0].data_points, 2);
    assert_eq!(hist.servers[0].network_in_history[0].total, 1000);
    assert_eq!(hist.servers[0].network_in_history[1].total, 1200);
    assert_eq!(hist.servers[0].memory_history[0].value, 5000); // 50.00%
}
