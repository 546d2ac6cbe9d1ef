use stat_server::stats::StatsMgr;
use stat_server::types::{HostConfig, HostStat, ReportOutcome, Tunables};

fn mk_cfg(name: &str) -> HostConfig {
    HostConfig {
        name: name.to_string(),
        alias: String::new(),
        gid: String::new(),
        location: String::new(),
        host_type: String::new(),
        labels: String::new(),
        pos: 0,
        weight: 0,
        notify: false,
        disabled: false,
        monthstart: 0,
        last_network_in: 0,
        last_network_out: 0,
        latest_ts: 0,
    }
}

fn mk_stat(name: &str, ts: u64) -> HostStat {
    HostStat {
        name: name.to_string(),
        alias: String::new(),
        gid: String::new(),
        location: String::new(),
        host_type: String::new(),
        labels: String::new(),
        pos: 0,
        weight: 0,
        notify: false,
        vnstat: false,
        disabled: false,
        online4: true,
        online6: false,
        si: true,
        latest_ts: ts,
        uptime: 60,
        uptime_str: String::new(),
        cpu: 10,
        memory_total: 1000,
        memory_used: 250,
        network_in: 100,
        network_out: 50,
        network_rx: 1,
        network_tx: 2,
        last_network_in: 0,
        last_network_out: 0,
        disks: Vec::new(),
        sys_info: None,
        ip_info: None,
    }
}

#[test]
fn wall_clock_pipeline_round_trip() {
    let now = {
        let t = chrono::Utc::now().timestamp();
        if t < 0 { 0 } else { t as u64 }
    };
    let tun = Tunables { offline_threshold: 3600, notify_interval: 3600, group_gc: 86400 };
    let mut m = StatsMgr::new(tun, vec![mk_cfg("h1")], vec![]);
    m.init();
    let (out, _) = m.report(mk_stat("h1", now));
    assert_eq!(out, ReportOutcome::Accepted);
    let _ = m.sweep();
    let snap = m.get_stats();
    assert_eq!(snap.servers.len(), 1);
    assert!(snap.servers[0].online4); // well within the offline threshold
    assert!(snap.updated >= now);
    // a sample this recent keeps the wall-clock aggregation walk short
    m.db.save_stat(&mk_stat("h1", now.saturating_sub(400))).unwrap();
    m.db.run_scheduled_aggregation().unwrap();
    for row in &m.db.agg_stats {
        assert_eq!(row.timestamp % (row.interval_minutes * 60), 0);
    }
}
