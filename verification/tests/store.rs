use stat_server::db::Database;
use stat_server::types::{DiskUsage, HostStat};

fn mk_stat(name: &str, ts: u64, net_in: u64, net_out: u64, cpu: u64) -> HostStat {
    HostStat {
        name: name.to_string(),
        alias: String::new(),
        gid: String::new(),
        location: String::new(),
        host_type: String::new(),
        labels: String::new(),
        pos: 0,
        weight: 0,
        notify: true,
        vnstat: false,
        disabled: false,
        online4: true,
        online6: false,
        si: true,
        latest_ts: ts,
        uptime: 0,
        uptime_str: String::new(),
        cpu,
        memory_total: 1000,
        memory_used: 500,
        network_in: net_in,
        network_out: net_out,
        network_rx: 10,
        network_tx: 20,
        last_network_in: 0,
        last_network_out: 0,
        disks: Vec::new(),
        sys_info: None,
        ip_info: None,
    }
}

fn mk_disk(mount: &str, total: u64, used: u64) -> DiskUsage {
    DiskUsage {
        name: mount.to_string(),
        mount_point: mount.to_string(),
        file_system: "ext4".to_string(),
        total,
        used,
        free: total - used,
    }
}

#[test]
fn save_stat_creates_host_and_rows() {
    let mut db = Database::new();
    let mut s = mk_stat("h1", 100, 1000, 500, 10);
    s.disks.push(mk_disk("/", 100, 40));
    s.disks.push(mk_disk("/data", 200, 80));
    db.save_stat(&s).unwrap();
    assert_eq!(db.hosts.len(), 1);
    assert_eq!(db.hosts[0].id, 1);
    assert_eq!(db.hosts[0].name, "h1");
    assert_eq!(db.stats.len(), 1);
    assert_eq!(db.stats[0].network_in, 1000);
    assert_eq!(db.stats[0].online, true);
    assert_eq!(db.disk_stats.len(), 2);
}

#[test]
fn save_stat_keeps_rows_sorted_by_timestamp() {
    let mut db = Database::new();
    db.save_stat(&mk_stat("h1", 200, 1, 1, 1)).unwrap();
    db.save_stat(&mk_stat("h1", 100, 2, 2, 2)).unwrap();
    db.save_stat(&mk_stat("h1", 150, 3, 3, 3)).unwrap();
    let ts: Vec<u64> = db.stats.iter().map(|r| r.timestamp).collect();
    assert_eq!(ts, vec![100, 150, 200]);
}

#[test]
fn update_last_network_unknown_host_is_an_error() {
    let mut db = Database::new();
    let r = db.update_last_network("ghost", 1, 2, 3);
    assert!(r.is_err());
    assert_eq!(db.last_network.len(), 0);
}

#[test]
fn update_last_network_upserts() {
    let mut db = Database::new();
    db.save_stat(&mk_stat("h1", 100, 1000, 500, 10)).unwrap();
    db.update_last_network("h1", 1000, 500, 111).unwrap();
    assert_eq!(db.last_network.len(), 1);
    assert_eq!(db.last_network[0].network_in, 1000);
    db.update_last_network("h1", 2000, 700, 222).unwrap();
    assert_eq!(db.last_network.len(), 1);
    assert_eq!(db.last_network[0].network_in, 2000);
    assert_eq!(db.last_network[0].updated_at, 222);
    let rows = db.get_last_network_data();
    assert_eq!(rows.len(), 1);
    assert_eq!(rows[0].0, "h1");
    assert_eq!(rows[0].1, 2000);
    assert_eq!(rows[0].2, 700);
}

#[test]
fn aggregation_folds_buckets() {
    let mut db = Database::new();
    // two samples in the bucket [300, 600), one after it
    db.save_stat(&mk_stat("h1", 300, 1000, 500, 10)).unwrap();
    db.save_stat(&mk_stat("h1", 400, 1200, 600, 30)).unwrap();
    db.save_stat(&mk_stat("h1", 620, 1300, 700, 50)).unwrap();
    // now = 900: buckets [300,600) and [600,900) are complete
    db.aggregate_data_at(5, 900).unwrap();
    assert_eq!(db.agg_stats.len(), 2);
    let first = &db.agg_stats[0];
    assert_eq!(first.timestamp, 300);
    assert_eq!(first.cpu, 20); // avg of 10 and 30
    assert_eq!(first.network_in, 1200); // max of the cumulative counters
    assert_eq!(first.online, true);
    let second = &db.agg_stats[1];
    assert_eq!(second.timestamp, 600);
    assert_eq!(second.cpu, 50);
}

#[test]
fn aggregation_is_idempotent() {
    let mut db = Database::new();
    let mut s = mk_stat("h1", 300, 1000, 500, 10);
    s.disks.push(mk_disk("/", 100, 40));
    db.save_stat(&s).unwrap();
    db.save_stat(&mk_stat("h1", 400, 1200, 600, 30)).unwrap();
    db.aggregate_data_at(5, 900).unwrap();
    let stats_once = db.agg_stats.clone();
    let disks_once = db.agg_disk_stats.len();
    db.aggregate_data_at(5, 900).unwrap();
    assert_eq!(db.agg_stats, stats_once);
    assert_eq!(db.agg_disk_stats.len(), disks_once);
}

#[test]
fn aggregated_rows_are_bucket_aligned() {
    let mut db = Database::new();
    // raw timestamps deliberately off any bucket boundary
    db.save_stat(&mk_stat("h1", 307, 1000, 500, 10)).unwrap();
    db.save_stat(&mk_stat("h2", 913, 1100, 500, 20)).unwrap();
    db.run_scheduled_aggregation_at(7200).unwrap();
    for row in &db.agg_stats {
        assert_eq!(row.timestamp % (row.interval_minutes * 60), 0);
    }
    for row in &db.agg_disk_stats {
        assert_eq!(row.timestamp % (row.interval_minutes * 60), 0);
    }
    assert!(db.agg_stats.len() > 0);
}

#[test]
fn tier_falls_back_to_raw_when_tier_is_empty() {
    let mut db = Database::new();
    // a 4-day range selects the 60-minute tier, which holds nothing yet
    db.save_stat(&mk_stat("h1", 1000, 1000, 500, 10)).unwrap();
    db.save_stat(&mk_stat("h1", 2000, 1100, 600, 20)).unwrap();
    let out = db.get_stats_by_timerange(0, 4 * 24 * 3600);
    assert_eq!(out.len(), 1);
    assert_eq!(out[0].name, "h1");
    assert_eq!(out[0].records.len(), 2);
    assert_eq!(out[0].records[0].timestamp, 1000);
    assert_eq!(out[0].records[1].timestamp, 2000);
}

#[test]
fn query_serves_aggregated_tier_when_present() {
    let mut db = Database::new();
    db.save_stat(&mk_stat("h1", 300, 1000, 500, 10)).unwrap();
    db.save_stat(&mk_stat("h1", 400, 1200, 600, 30)).unwrap();
    db.aggregate_data_at(60, 2 * 3600).unwrap();
    assert!(db.agg_stats.len() > 0);
    // a 4-day span selects the 60-minute tier, now populated
    let out = db.get_stats_by_timerange(0, 4 * 24 * 3600);
    assert_eq!(out.len(), 1);
    assert_eq!(out[0].records.len(), 1);
    assert_eq!(out[0].records[0].cpu, 20);
}

#[test]
fn query_returns_points_in_ascending_order() {
    let mut db = Database::new();
    db.save_stat(&mk_stat("h1", 50, 1000, 500, 10)).unwrap();
    db.save_stat(&mk_stat("h1", 10, 900, 400, 5)).unwrap();
    db.save_stat(&mk_stat("h1", 30, 950, 450, 7)).unwrap();
    let out = db.get_stats_by_timerange(0, 100);
    assert_eq!(out[0].records.len(), 3);
    assert!(out[0].records[0].timestamp <= out[0].records[1].timestamp);
    assert!(out[0].records[1].timestamp <= out[0].records[2].timestamp);
}

#[test]
fn cleanup_prunes_old_raw_rows_only() {
    let mut db = Database::new();
    let mut old_s = mk_stat("h1", 100, 1000, 500, 10);
    old_s.disks.push(mk_disk("/", 100, 40));
    db.save_stat(&old_s).unwrap();
    db.save_stat(&mk_stat("h1", 200_000, 1100, 600, 20)).unwrap();
    db.aggregate_data_at(5, 300).unwrap();
    let aggs = db.agg_stats.len();
    // retention of 1 day measured at now = 86400 + 150: cutoff is 150
    let removed = db.cleanup_old_data_at(1, 86400 + 150);
    assert_eq!(removed, 2); // one stat row and one disk row
    assert_eq!(db.stats.len(), 1);
    assert_eq!(db.stats[0].timestamp, 200_000);
    assert_eq!(db.disk_stats.len(), 0);
    assert_eq!(db.agg_stats.len(), aggs); // aggregates are never pruned
}

#[test]
fn disk_aggregation_averages_per_mount() {
    let mut db = Database::new();
    let mut s1 = mk_stat("h1", 300, 1, 1, 0);
    s1.disks.push(mk_disk("/", 100, 40));
    s1.disks.push(mk_disk("/data", 200, 100));
    let mut s2 = mk_stat("h1", 400, 2, 2, 0);
    s2.disks.push(mk_disk("/", 100, 60));
    db.save_stat(&s1).unwrap();
    db.save_stat(&s2).unwrap();
    db.aggregate_data_at(5, 900).unwrap();
    let root = db
        .agg_disk_stats
        .iter()
        .find(|d| d.mount_point == "/")
        .unwrap();
    assert_eq!(root.used, 50); // avg of 40 and 60
    let data = db
        .agg_disk_stats
        .iter()
        .find(|d| d.mount_point == "/data")
        .unwrap();
    assert_eq!(data.used, 100);
}
