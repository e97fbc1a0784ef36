use nodetop::classify::classify_with;
use nodetop::rate::compute_rate;
use nodetop::{
    add_to_node_exporter_vectors, assemble_snapshot, cpu_details, diff_cpu_details,
    diff_disk_details, diff_yugabyte_details, disk_details, label_fingerprint, parse_node_exporter,
    read_samples, remaining_sleep_ms, scrape_targets, yugabyte_details, Category, CpuDetails,
    CpuPresentation, DiskPresentation, HostEntry, HostSnapshot, Kind, NodeExporterValues,
    Presentations, Rate, StoredNodeExporterValues, WireSample, WireValue, YBIOPresentation,
};

fn wire(metric: &str, labels: &[&str], value: WireValue, ts: i64) -> WireSample {
    WireSample {
        metric: metric.to_string(),
        label_values: labels.iter().map(|s| s.to_string()).collect(),
        value,
        timestamp_ms: ts,
    }
}

fn counter(metric: &str, labels: &[&str], thousandths: i64, ts: i64) -> WireSample {
    wire(metric, labels, WireValue::Counter(thousandths), ts)
}

fn gauge(metric: &str, labels: &[&str], thousandths: i64, ts: i64) -> WireSample {
    wire(metric, labels, WireValue::Gauge(thousandths), ts)
}

fn summaries(v: &[NodeExporterValues]) -> Vec<(String, String, i128, i64)> {
    v.iter()
        .filter(|r| r.node_exporter_category == Category::Summary)
        .map(|r| {
            (
                r.node_exporter_name.clone(),
                r.node_exporter_labels.clone(),
                r.node_exporter_value,
                r.node_exporter_timestamp,
            )
        })
        .collect()
}

fn snapshot_of(host: &str, lines: Vec<WireSample>) -> HostSnapshot {
    assemble_snapshot(vec![HostEntry { identity: host.to_string(), samples: parse_node_exporter(lines) }])
}

fn cpu_lines(ts: i64, idle: i64) -> Vec<WireSample> {
    let mut v = vec![
        gauge("node_load1", &[], 1_500, ts),
        gauge("node_load5", &[], 1_000, ts),
        gauge("node_load15", &[], 500, ts),
        gauge("node_procs_running", &[], 3_000, ts),
        gauge("node_procs_blocked", &[], 0, ts),
        counter("node_context_switches_total", &[], 900_000, ts),
        counter("node_intr_total", &[], 700_000, ts),
        counter("node_schedstat_running_seconds_total", &["0"], 40_000, ts),
        counter("node_schedstat_waiting_seconds_total", &["0"], 4_000, ts),
        counter("node_cpu_guest_seconds_total", &["0", "user"], 0, ts),
        counter("node_cpu_guest_seconds_total", &["0", "nice"], 0, ts),
    ];
    for (mode, value) in [
        ("idle", idle),
        ("irq", 100),
        ("softirq", 200),
        ("system", 3_000),
        ("user", 5_000),
        ("iowait", 300),
        ("nice", 10),
        ("steal", 0),
    ] {
        v.push(counter("node_cpu_seconds_total", &["0", mode], value, ts));
    }
    v
}

#[test]
fn fingerprint_is_sorted_and_prefixed() {
    let a = label_fingerprint(vec!["idle".to_string(), "0".to_string()]);
    let b = label_fingerprint(vec!["0".to_string(), "idle".to_string()]);
    assert_eq!(a, "_0_idle");
    assert_eq!(a, b);
    assert_eq!(label_fingerprint(vec![]), "");
    assert_eq!(label_fingerprint(vec!["sda".to_string()]), "_sda");
}

#[test]
fn fingerprint_ignores_order_of_three_values() {
    let perms = [["b", "a", "c"], ["c", "b", "a"], ["a", "c", "b"]];
    for p in perms {
        let f = label_fingerprint(p.iter().map(|s| s.to_string()).collect());
        assert_eq!(f, "_a_b_c");
    }
}

#[test]
fn wire_types_map_to_kinds() {
    let raw = read_samples(vec![
        counter("c", &[], 1, 1),
        gauge("g", &[], 2, 1),
        wire("u", &[], WireValue::Untyped(3), 1),
        wire("h", &[], WireValue::Histogram, 1),
        wire("s", &[], WireValue::Summary, 1),
    ]);
    let kinds: Vec<(String, Kind, Category, i128)> = raw
        .iter()
        .map(|r| (r.node_exporter_name.clone(), r.node_exporter_type, r.node_exporter_category, r.node_exporter_value))
        .collect();
    assert_eq!(
        kinds,
        vec![
            ("c".to_string(), Kind::Counter, Category::All, 1),
            ("g".to_string(), Kind::Gauge, Category::All, 2),
            ("u".to_string(), Kind::Counter, Category::All, 3),
        ]
    );
}

#[test]
fn empty_body_gives_no_samples() {
    assert!(parse_node_exporter(vec![]).is_empty());
}

#[test]
fn cpu_modes_synthesize_only_present_buckets() {
    let out = parse_node_exporter(vec![
        counter("node_cpu_seconds_total", &["0", "idle"], 10_000, 100),
        counter("node_cpu_seconds_total", &["0", "user"], 5_000, 90),
        counter("node_cpu_seconds_total", &["0", "system"], 3_000, 95),
    ]);
    assert_eq!(
        summaries(&out),
        vec![
            ("node_cpu_seconds_total".to_string(), "_idle".to_string(), 10_000, 100),
            ("node_cpu_seconds_total".to_string(), "_system".to_string(), 3_000, 95),
            ("node_cpu_seconds_total".to_string(), "_user".to_string(), 5_000, 90),
        ]
    );
    assert!(out[..3].iter().all(|r| r.node_exporter_category == Category::Detail));
}

#[test]
fn cpu_buckets_sum_across_cpus_with_earliest_timestamp() {
    let out = parse_node_exporter(vec![
        counter("node_cpu_seconds_total", &["0", "idle"], 10_000, 100),
        counter("node_cpu_seconds_total", &["1", "idle"], 7_000, 80),
    ]);
    assert_eq!(
        summaries(&out),
        vec![("node_cpu_seconds_total".to_string(), "_idle".to_string(), 17_000, 80)]
    );
}

#[test]
fn absent_family_gives_no_summary() {
    let out = parse_node_exporter(vec![gauge("node_load1", &[], 1_000, 1)]);
    assert_eq!(out.len(), 1);
    assert!(summaries(&out).is_empty());
    assert_eq!(out[0].node_exporter_category, Category::All);
}

#[test]
fn glog_priority_summary_needs_its_own_samples() {
    let out = parse_node_exporter(vec![counter("glog_info_messages", &[], 4_000, 7)]);
    assert_eq!(summaries(&out), vec![("glog_messages_info".to_string(), String::new(), 4_000, 7)]);
    let out = parse_node_exporter(vec![
        counter("glog_info_messages", &[], 4_000, 7),
        counter("glog_warning_messages", &[], 2_000, 6),
        counter("glog_error_messages", &[], 1_000, 9),
    ]);
    assert_eq!(
        summaries(&out),
        vec![
            ("glog_messages_info".to_string(), String::new(), 4_000, 7),
            ("glog_messages_prio".to_string(), String::new(), 3_000, 6),
        ]
    );
}

#[test]
fn paired_latency_family_sums_count_and_sum() {
    let out = parse_node_exporter(vec![
        counter("log_sync_latency_count", &["t1"], 2_000, 5),
        counter("log_sync_latency_count", &["t2"], 3_000, 5),
        counter("log_sync_latency_sum", &["t1"], 40_000, 5),
    ]);
    assert_eq!(
        summaries(&out),
        vec![
            ("log_sync_latency_count".to_string(), String::new(), 5_000, 5),
            ("log_sync_latency_sum".to_string(), String::new(), 40_000, 5),
        ]
    );
    assert!(out[..3].iter().all(|r| r.node_exporter_category == Category::Detail));
}

#[test]
fn internal_and_device_mapper_samples_are_demoted() {
    let out = parse_node_exporter(vec![
        gauge("process_resident_memory_bytes", &[], 1, 1),
        gauge("go_goroutines", &[], 1, 1),
        counter("node_disk_reads_completed_total", &["dm-0"], 1, 1),
        counter("node_disk_reads_completed_total", &["sda"], 1, 1),
    ]);
    let cats: Vec<Category> = out.iter().map(|r| r.node_exporter_category).collect();
    assert_eq!(cats, vec![Category::Detail, Category::Detail, Category::Detail, Category::All]);
}

#[test]
fn classification_is_repeatable() {
    let lines = || cpu_lines(1_000, 10_000);
    let a = parse_node_exporter(lines());
    let b = parse_node_exporter(lines());
    assert_eq!(summaries(&a), summaries(&b));
    assert_eq!(summaries(&a).len(), 12);
    let cats_a: Vec<Category> = a.iter().map(|r| r.node_exporter_category).collect();
    let cats_b: Vec<Category> = b.iter().map(|r| r.node_exporter_category).collect();
    assert_eq!(cats_a, cats_b);
    let raw = read_samples(lines());
    let table = nodetop::classify::families();
    let c = classify_with(&raw, &table);
    assert_eq!(summaries(&a), summaries(&c));
}

#[test]
fn cpu_fact_reads_summaries_and_gauges() {
    let snap = snapshot_of("h:9100:metrics", cpu_lines(1_000, 10_000));
    let facts = cpu_details(&snap).unwrap();
    assert_eq!(facts.len(), 1);
    let f = &facts[0];
    assert_eq!(f.hostname_port, "h:9100:metrics");
    assert_eq!(f.timestamp, 1_000);
    assert_eq!(f.load_1, 1_500);
    assert_eq!(f.cpu_idle, 10_000);
    assert_eq!(f.cpu_user, 5_000);
    assert_eq!(f.cpu_system, 3_000);
    assert_eq!(f.schedstat_running, 40_000);
    assert_eq!(f.procs_running, 3_000);
    assert_eq!(f.interrupts, 700_000);
}

#[test]
fn host_without_load_average_gives_no_cpu_fact() {
    let snap = snapshot_of("h:1:metrics", vec![counter("node_cpu_seconds_total", &["0", "idle"], 1, 1)]);
    assert!(cpu_details(&snap).unwrap().is_empty());
}

#[test]
fn missing_cpu_field_is_an_error() {
    let snap = snapshot_of("h:1:metrics", vec![gauge("node_load1", &[], 1, 1)]);
    let err = cpu_details(&snap).unwrap_err();
    assert_eq!(err.hostname_port, "h:1:metrics");
    assert_eq!(err.metric, "node_load5");
}

fn disk_lines(dev: &str, ts: i64, reads: i64, discards: bool) -> Vec<WireSample> {
    let mut v = vec![
        counter("node_disk_reads_completed_total", &[dev], reads, ts),
        counter("node_disk_writes_completed_total", &[dev], 20_000, ts),
        counter("node_disk_reads_merged_total", &[dev], 1_000, ts),
        counter("node_disk_writes_merged_total", &[dev], 2_000, ts),
        counter("node_disk_read_bytes_total", &[dev], 4_096_000, ts),
        counter("node_disk_written_bytes_total", &[dev], 8_192_000, ts),
        counter("node_disk_read_time_seconds_total", &[dev], 500, ts),
        counter("node_disk_write_time_seconds_total", &[dev], 700, ts),
        counter("node_disk_io_time_seconds_total", &[dev], 900, ts),
        counter("node_disk_io_time_weighted_seconds_total", &[dev], 1_100, ts),
    ];
    if discards {
        v.push(counter("node_disk_discards_completed_total", &[dev], 5_000, ts));
    }
    v
}

#[test]
fn disk_facts_skip_device_mapper() {
    let mut lines = disk_lines("sda", 10, 10_000, true);
    lines.extend(disk_lines("dm-0", 10, 99_000, true));
    let snap = snapshot_of("h:9100:metrics", lines);
    let hosts = disk_details(&snap).unwrap();
    assert_eq!(hosts.len(), 1);
    let disks = &hosts[0].diskdetail;
    assert_eq!(disks.len(), 1);
    assert_eq!(disks[0].disk_name, "sda");
    assert!(disks.iter().all(|d| !d.disk_name.contains("dm-")));
    assert_eq!(disks[0].reads_completed, 10_000);
    assert_eq!(disks[0].discards_completed, 5_000);
    assert_eq!(hosts[0].timestamp, 10);
}

#[test]
fn absent_discard_counters_read_as_zero() {
    let snap = snapshot_of("h:9100:metrics", disk_lines("nvme0n1", 10, 10_000, false));
    let hosts = disk_details(&snap).unwrap();
    let d = &hosts[0].diskdetail[0];
    assert_eq!(d.disk_name, "nvme0n1");
    assert_eq!(d.discards_completed, 0);
    assert_eq!(d.discards_merged, 0);
    assert_eq!(d.discards_sectors, 0);
    assert_eq!(d.discards_time, 0);
    assert_eq!(d.queue, 1_100);
}

#[test]
fn missing_required_disk_counter_is_an_error() {
    let mut lines = disk_lines("sda", 10, 10_000, false);
    lines.remove(1);
    let snap = snapshot_of("h:9100:metrics", lines);
    let err = disk_details(&snap).unwrap_err();
    assert_eq!(err.metric, "node_disk_writes_completed_total");
}

fn cpu_fact(ts: i64, idle: i128) -> CpuDetails {
    CpuDetails {
        hostname_port: "K".to_string(),
        timestamp: ts,
        load_1: 1,
        load_5: 2,
        load_15: 3,
        cpu_idle: idle,
        cpu_irq: 0,
        cpu_softirq: 0,
        cpu_system: 0,
        cpu_user: 0,
        cpu_iowait: 0,
        cpu_nice: 0,
        cpu_steal: 0,
        cpu_guest_nice: 0,
        cpu_guest_user: 0,
        schedstat_running: 0,
        schedstat_waiting: 0,
        procs_running: 4,
        procs_blocked: 5,
        context_switches: 77,
        interrupts: 0,
    }
}

#[test]
fn cold_start_has_zero_rates_and_seeded_counters() {
    let mut states: Presentations<CpuPresentation> = Presentations::new();
    diff_cpu_details(vec![cpu_fact(0, 100_000)], &mut states);
    assert_eq!(states.keys, vec!["K".to_string()]);
    let s = states.states[0];
    assert_eq!(s.idle.counter, 100_000);
    assert_eq!(s.idle.rate, Rate::PerSecond(0));
    assert_eq!(s.context_switches.counter, 77);
    assert_eq!(s.context_switches.rate, Rate::PerSecond(0));
    assert_eq!(s.load_15, 3);
    assert_eq!(s.procs_blocked, 5);
    assert_eq!(s.timestamp, 0);
}

#[test]
fn steady_state_rate_is_change_per_second() {
    let mut states: Presentations<CpuPresentation> = Presentations::new();
    diff_cpu_details(vec![cpu_fact(0, 100_000)], &mut states);
    diff_cpu_details(vec![cpu_fact(5_000, 150_000)], &mut states);
    let s = states.states[0];
    assert_eq!(s.idle.rate, Rate::PerSecond(10_000));
    assert_eq!(s.idle.counter, 150_000);
    assert_eq!(s.timestamp, 5_000);
    assert_eq!(s.context_switches.rate, Rate::PerSecond(0));
    assert_eq!(states.keys.len(), 1);
}

#[test]
fn zero_elapsed_time_gives_undefined_rate() {
    let mut states: Presentations<CpuPresentation> = Presentations::new();
    diff_cpu_details(vec![cpu_fact(1_000, 1), cpu_fact(1_000, 2)], &mut states);
    assert_eq!(states.states[0].idle.rate, Rate::Undefined);
    assert_eq!(states.states[0].idle.counter, 2);
}

#[test]
fn rates_truncate_toward_zero_and_keep_sign() {
    assert_eq!(compute_rate(50_000, 5_000), Rate::PerSecond(10_000));
    assert_eq!(compute_rate(1, 3_000), Rate::PerSecond(0));
    assert_eq!(compute_rate(-7, 2), Rate::PerSecond(-3_500));
    assert_eq!(compute_rate(10, -1_000), Rate::PerSecond(-10));
    assert_eq!(compute_rate(i128::MAX, 1), Rate::Undefined);
    assert_eq!(compute_rate(5, 0), Rate::Undefined);
}

#[test]
fn disk_states_are_keyed_by_host_and_disk() {
    let snap = snapshot_of("h:9100:metrics", disk_lines("sda", 0, 10_000, true));
    let mut states: Presentations<DiskPresentation> = Presentations::new();
    diff_disk_details(disk_details(&snap).unwrap(), &mut states);
    let snap = snapshot_of("h:9100:metrics", disk_lines("sda", 2_000, 30_000, true));
    diff_disk_details(disk_details(&snap).unwrap(), &mut states);
    assert_eq!(states.keys, vec!["h:9100:metrics sda".to_string()]);
    let s = states.states[0];
    assert_eq!(s.reads_completed.counter, 30_000);
    assert_eq!(s.reads_completed.rate, Rate::PerSecond(10_000));
    assert_eq!(s.reads_merged.counter, 1_000);
    assert_eq!(s.writes_completed.rate, Rate::PerSecond(0));
}

#[test]
fn database_io_fact_and_rates() {
    let lines = |ts: i64, logged: i64| {
        let mut v = vec![counter("log_bytes_logged", &["t1"], logged, ts)];
        for name in [
            "glog_warning_messages",
            "log_reader_bytes_read",
            "log_cache_disk_reads",
            "log_sync_latency_count",
            "log_sync_latency_sum",
            "log_append_latency_count",
            "log_append_latency_sum",
            "rocksdb_flush_write_bytes",
            "rocksdb_compact_read_bytes",
            "rocksdb_compact_write_bytes",
            "rocksdb_write_raw_block_micros_count",
            "rocksdb_write_raw_block_micros_sum",
            "rocksdb_sst_read_micros_count",
            "rocksdb_sst_read_micros_sum",
        ] {
            v.push(counter(name, &["t1"], 1_000, ts));
        }
        v.push(counter("glog_info_messages", &[], 2_000, ts));
        v
    };
    let snap = snapshot_of("db:9000:prometheus-metrics", lines(0, 4_000));
    let facts = yugabyte_details(&snap).unwrap();
    assert_eq!(facts.len(), 1);
    assert_eq!(facts[0].log_bytes_logged, 4_000);
    assert_eq!(facts[0].glog_messages_info, 2_000);
    assert_eq!(facts[0].glog_messages_prio, 1_000);
    let mut states: Presentations<YBIOPresentation> = Presentations::new();
    diff_yugabyte_details(facts, &mut states);
    let snap = snapshot_of("db:9000:prometheus-metrics", lines(1_000, 6_000));
    diff_yugabyte_details(yugabyte_details(&snap).unwrap(), &mut states);
    assert_eq!(states.states[0].log_bytes_logged.rate, Rate::PerSecond(2_000));
    assert_eq!(states.states[0].log_bytes_logged.counter, 6_000);
}

#[test]
fn targets_cross_hosts_ports_and_paths() {
    let hosts = vec!["a".to_string(), "b".to_string()];
    let ports = vec!["9100".to_string(), "9300".to_string()];
    let t = scrape_targets(&hosts, &ports);
    let ids: Vec<&str> = t.iter().map(|x| x.identity.as_str()).collect();
    assert_eq!(
        ids,
        vec![
            "a:9100:metrics",
            "a:9100:prometheus-metrics",
            "a:9300:metrics",
            "a:9300:prometheus-metrics",
            "b:9100:metrics",
            "b:9100:prometheus-metrics",
            "b:9300:metrics",
            "b:9300:prometheus-metrics",
        ]
    );
    assert_eq!(t[5].host, "b");
    assert_eq!(t[5].port, "9100");
    assert_eq!(t[5].endpoint, "prometheus-metrics");
}

#[test]
fn snapshot_has_one_key_per_target_in_any_arrival_order() {
    let hosts = vec!["a".to_string(), "b".to_string(), "c".to_string()];
    let ports = vec!["1".to_string()];
    let targets = scrape_targets(&hosts, &ports);
    let mut ids: Vec<String> = targets.iter().map(|t| t.identity.clone()).collect();
    for rotation in 0..ids.len() {
        ids.rotate_left(rotation);
        let results: Vec<HostEntry> = ids
            .iter()
            .map(|id| HostEntry { identity: id.clone(), samples: parse_node_exporter(vec![]) })
            .collect();
        let snap = assemble_snapshot(results);
        assert_eq!(snap.len(), 6);
        for id in &ids {
            assert!(snap.find(id).is_some());
        }
    }
}

#[test]
fn later_result_overwrites_earlier_one() {
    let first = HostEntry { identity: "a:1:metrics".to_string(), samples: parse_node_exporter(vec![gauge("x", &[], 1, 1)]) };
    let second = HostEntry { identity: "a:1:metrics".to_string(), samples: parse_node_exporter(vec![]) };
    let snap = assemble_snapshot(vec![first, second]);
    assert_eq!(snap.len(), 1);
    assert!(snap.entries[0].samples.is_empty());
}

#[test]
fn stored_rows_keep_host_and_fields() {
    let mut store: Vec<StoredNodeExporterValues> = Vec::new();
    add_to_node_exporter_vectors(parse_node_exporter(vec![gauge("node_load1", &[], 1_250, 42)]), "h:1", &mut store);
    add_to_node_exporter_vectors(parse_node_exporter(vec![gauge("node_load5", &[], 7, 43)]), "h:2", &mut store);
    assert_eq!(store.len(), 2);
    assert_eq!(store[0].hostname_port, "h:1");
    assert_eq!(store[0].node_exporter_name, "node_load1");
    assert_eq!(store[0].node_exporter_value, 1_250);
    assert_eq!(store[0].timestamp, 42);
    assert_eq!(store[1].hostname_port, "h:2");
    assert_eq!(store[1].node_exporter_type, Kind::Gauge);
}

#[test]
fn sleep_is_the_rest_of_the_interval() {
    assert_eq!(remaining_sleep_ms(5_000, 1_200), 3_800);
    assert_eq!(remaining_sleep_ms(5_000, 5_000), 0);
    assert_eq!(remaining_sleep_ms(5_000, 9_000), 0);
}

#[test]
fn snapshot_insert_replaces_in_place() {
    let mut snap = HostSnapshot::new();
    snap.insert("x".to_string(), parse_node_exporter(vec![gauge("a", &[], 1, 1)]));
    snap.insert("y".to_string(), parse_node_exporter(vec![]));
    snap.insert("x".to_string(), parse_node_exporter(vec![]));
    assert_eq!(snap.len(), 2);
    assert_eq!(snap.find("x"), Some(0));
    assert!(snap.entries[0].samples.is_empty());
    assert_eq!(snap.find("z"), None);
}

#[test]
fn missing_database_counter_is_an_error() {
    let snap = snapshot_of("db:9000:metrics", vec![counter("log_bytes_logged", &["t1"], 1_000, 1)]);
    let err = yugabyte_details(&snap).unwrap_err();
    assert_eq!(err.hostname_port, "db:9000:metrics");
    assert_eq!(err.metric, "glog_messages_info");
}

#[test]
fn host_without_wal_counter_gives_no_database_fact() {
    let snap = snapshot_of("h:1:metrics", cpu_lines(1, 1));
    assert!(yugabyte_details(&snap).unwrap().is_empty());
    assert!(disk_details(&snap).unwrap().is_empty());
}

#[test]
fn glog_warning_and_error_samples_are_demoted() {
    let out = parse_node_exporter(vec![
        counter("glog_info_messages", &[], 4_000, 7),
        counter("glog_warning_messages", &[], 2_000, 6),
        counter("glog_error_messages", &[], 1_000, 9),
    ]);
    assert!(out[..3].iter().all(|r| r.node_exporter_category == Category::Detail));
}

#[test]
fn duplicate_disk_records_give_one_fact() {
    let mut lines = disk_lines("sda", 10, 10_000, true);
    lines.push(counter("node_disk_reads_completed_total", &["sda"], 99_000, 10));
    let snap = snapshot_of("h:9100:metrics", lines);
    let hosts = disk_details(&snap).unwrap();
    let disks = &hosts[0].diskdetail;
    assert_eq!(disks.len(), 1);
    assert_eq!(disks[0].disk_name, "sda");
    assert_eq!(disks[0].reads_completed, 10_000);
}

#[test]
fn presentation_keys_are_kept_sorted() {
    let mut states: Presentations<CpuPresentation> = Presentations::new();
    let mut b = cpu_fact(0, 1);
    b.hostname_port = "b".to_string();
    let mut a = cpu_fact(0, 1);
    a.hostname_port = "a".to_string();
    let mut c = cpu_fact(0, 1);
    c.hostname_port = "c".to_string();
    diff_cpu_details(vec![b, c, a], &mut states);
    assert_eq!(states.keys, vec!["a".to_string(), "b".to_string(), "c".to_string()]);
    assert_eq!(states.states.len(), 3);
}

#[test]
fn targets_keep_host_port_and_path_apart() {
    let hosts = vec!["a".to_string(), "b".to_string()];
    let ports = vec!["1".to_string(), "2".to_string(), "3".to_string()];
    let t = scrape_targets(&hosts, &ports);
    assert_eq!(t.len(), 12);
    for (i, x) in t.iter().enumerate() {
        assert_eq!(x.host, hosts[i / 6]);
        assert_eq!(x.port, ports[(i / 2) % 3]);
        assert_eq!(x.endpoint, ["metrics", "prometheus-metrics"][i % 2]);
    }
}
