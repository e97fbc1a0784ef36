//! Typed facts drawn from a snapshot: CPU, disk and database I/O counters
//! and gauges of each host.
use vstd::prelude::*;
use crate::sample::{sample_views, Category, NodeExporterValues, SampleView};
use crate::snapshot::{HostEntry, HostSnapshot};
use crate::text::{contains_str, has_substring, str_eq};

verus! {

/// What a field of a fact is read from: the first sample with this name,
/// with exactly this fingerprint when `labels` is given, and of category
/// `Summary` when `summary_only` holds.
pub struct Lookup {
    pub name: Seq<char>,
    pub labels: Option<Seq<char>>,
    pub summary_only: bool,
}

/// Executable form of a `Lookup`.
pub struct ExecLookup {
    pub name: &'static str,
    pub labels: Option<String>,
    pub summary_only: bool,
}

impl View for ExecLookup {
    type V = Lookup;

    open spec fn view(&self) -> Lookup {
        Lookup {
            name: self.name@,
            labels: match self.labels {
                Some(l) => Some(l@),
                None => None,
            },
            summary_only: self.summary_only,
        }
    }
}

/// The views of a sequence of lookups.
pub open spec fn lookup_views(t: Seq<ExecLookup>) -> Seq<Lookup> {
    t.map_values(|l: ExecLookup| l@)
}

/// The lookup selects the sample.
pub open spec fn lookup_matches(r: SampleView, l: Lookup) -> bool {
    &&& r.name == l.name
    &&& match l.labels {
        Some(x) => r.labels == x,
        None => true,
    }
    &&& (l.summary_only ==> r.category == Category::Summary)
}

/// The first sample that the lookup selects.
pub open spec fn first_match(s: Seq<SampleView>, l: Lookup) -> Option<SampleView>
    decreases s.len(),
{
    if s.len() == 0 {
        None
    } else if lookup_matches(s[0], l) {
        Some(s[0])
    } else {
        first_match(s.drop_first(), l)
    }
}

/// Every lookup of the list selects a sample.
pub open spec fn all_found(s: Seq<SampleView>, t: Seq<Lookup>) -> bool {
    forall|j: int| 0 <= j < t.len() ==> (#[trigger] first_match(s, t[j])) is Some
}

/// The values that the lookups select.
pub open spec fn found_values(s: Seq<SampleView>, t: Seq<Lookup>) -> Seq<int> {
    t.map_values(|l: Lookup| first_match(s, l).unwrap().value)
}

/// A required field that a host does not expose.
#[derive(Debug)]
pub struct MissingMetric {
    pub hostname_port: String,
    pub metric: String,
}

fn lookup_by_name(name: &'static str) -> (l: ExecLookup)
    ensures
        l@ == (Lookup { name: name@, labels: None, summary_only: false }),
{
    ExecLookup { name: name, labels: None, summary_only: false }
}

fn lookup_summary(name: &'static str) -> (l: ExecLookup)
    ensures
        l@ == (Lookup { name: name@, labels: None, summary_only: true }),
{
    ExecLookup { name: name, labels: None, summary_only: true }
}

fn lookup_bucket(name: &'static str, labels: &str) -> (l: ExecLookup)
    ensures
        l@ == (Lookup { name: name@, labels: Some(labels@), summary_only: true }),
{
    ExecLookup { name: name, labels: Some(labels.to_owned()), summary_only: true }
}

fn lookup_labelled(name: &'static str, labels: &str) -> (l: ExecLookup)
    ensures
        l@ == (Lookup { name: name@, labels: Some(labels@), summary_only: false }),
{
    ExecLookup { name: name, labels: Some(labels.to_owned()), summary_only: false }
}

/// The first sample that the lookup selects, by index.
fn find_first(s: &Vec<NodeExporterValues>, l: &ExecLookup) -> (r: Option<usize>)
    ensures
        match r {
            Some(i) => i < s@.len() && first_match(sample_views(s@), l@) == Some(s@[i as int]@),
            None => first_match(sample_views(s@), l@) is None,
        },
{
    let ghost sv = sample_views(s@);
    let mut i: usize = 0;
    assert(sv.subrange(0, sv.len() as int) =~= sv);
    while i < s.len()
        invariant
            i <= s.len(),
            sv == sample_views(s@),
            first_match(sv, l@) == first_match(sv.subrange(i as int, sv.len() as int), l@),
        decreases s.len() - i,
    {
        let r = &s[i];
        let ghost rest = sv.subrange(i as int, sv.len() as int);
        assert(rest[0] == r@);
        assert(rest.drop_first() =~= sv.subrange(i + 1, sv.len() as int));
        let name_ok = str_eq(r.node_exporter_name.as_str(), l.name);
        let labels_ok = match &l.labels {
            Some(x) => str_eq(r.node_exporter_labels.as_str(), x.as_str()),
            None => true,
        };
        let category_ok = !l.summary_only || r.node_exporter_category == Category::Summary;
        if name_ok && labels_ok && category_ok {
            return Some(i);
        }
        i = i + 1;
    }
    assert(sv.subrange(i as int, sv.len() as int) =~= Seq::<SampleView>::empty());
    None
}

/// The values that a list of lookups selects, or the index of the first one
/// that selects nothing.
fn find_all(s: &Vec<NodeExporterValues>, t: &Vec<ExecLookup>) -> (r: Result<Vec<i128>, usize>)
    ensures
        match r {
            Ok(v) => all_found(sample_views(s@), lookup_views(t@)) && v@.map_values(|x: i128| x as int)
                == found_values(sample_views(s@), lookup_views(t@)),
            Err(j) => j < t@.len() && first_match(sample_views(s@), lookup_views(t@)[j as int]) is None
                && !all_found(sample_views(s@), lookup_views(t@)),
        },
{
    let ghost sv = sample_views(s@);
    let ghost tv = lookup_views(t@);
    let mut v: Vec<i128> = Vec::new();
    let mut j: usize = 0;
    while j < t.len()
        invariant
            j <= t.len(),
            sv == sample_views(s@),
            tv == lookup_views(t@),
            v@.len() == j,
            forall|k: int| 0 <= k < j ==> (#[trigger] first_match(sv, tv[k])) is Some,
            forall|k: int| 0 <= k < j ==> v@[k] as int == #[trigger] first_match(sv, tv[k]).unwrap().value,
        decreases t.len() - j,
    {
        assert(tv[j as int] == t@[j as int]@);
        match find_first(s, &t[j]) {
            Some(i) => {
                v.push(s[i].node_exporter_value);
            },
            None => {
                return Err(j);
            },
        }
        j = j + 1;
    }
    assert(v@.map_values(|x: i128| x as int) =~= found_values(sv, tv));
    Ok(v)
}

// ---------------------------------------------------------------- CPU

/// CPU counters and gauges of one host at one moment. Values are in
/// thousandths; `timestamp` is in milliseconds since the Unix epoch.
#[derive(Debug)]
pub struct CpuDetails {
    pub hostname_port: String,
    pub timestamp: i64,
    pub load_1: i128,
    pub load_5: i128,
    pub load_15: i128,
    pub cpu_idle: i128,
    pub cpu_irq: i128,
    pub cpu_softirq: i128,
    pub cpu_system: i128,
    pub cpu_user: i128,
    pub cpu_iowait: i128,
    pub cpu_nice: i128,
    pub cpu_steal: i128,
    pub cpu_guest_nice: i128,
    pub cpu_guest_user: i128,
    pub schedstat_running: i128,
    pub schedstat_waiting: i128,
    pub procs_running: i128,
    pub procs_blocked: i128,
    pub context_switches: i128,
    pub interrupts: i128,
}

impl CpuDetails {
    /// The fields in declaration order.
    pub open spec fn fields(&self) -> Seq<int> {
        seq![
            self.load_1 as int, self.load_5 as int, self.load_15 as int, self.cpu_idle as int,
            self.cpu_irq as int, self.cpu_softirq as int, self.cpu_system as int, self.cpu_user as int,
            self.cpu_iowait as int, self.cpu_nice as int, self.cpu_steal as int, self.cpu_guest_nice as int,
            self.cpu_guest_user as int, self.schedstat_running as int, self.schedstat_waiting as int,
            self.procs_running as int, self.procs_blocked as int, self.context_switches as int,
            self.interrupts as int,
        ]
    }
}

/// Where each CPU field is read from, in declaration order.
pub open spec fn cpu_lookups() -> Seq<Lookup> {
    let cpu = "node_cpu_seconds_total"@;
    let guest = "node_cpu_guest_seconds_total"@;
    let plain = |n: Seq<char>| Lookup { name: n, labels: None, summary_only: false };
    let summed = |n: Seq<char>| Lookup { name: n, labels: None, summary_only: true };
    let bucket = |n: Seq<char>, l: Seq<char>| Lookup { name: n, labels: Some(l), summary_only: true };
    seq![
        plain("node_load1"@), plain("node_load5"@), plain("node_load15"@),
        bucket(cpu, "_idle"@), bucket(cpu, "_irq"@), bucket(cpu, "_softirq"@), bucket(cpu, "_system"@),
        bucket(cpu, "_user"@), bucket(cpu, "_iowait"@), bucket(cpu, "_nice"@), bucket(cpu, "_steal"@),
        bucket(guest, "_nice"@), bucket(guest, "_user"@),
        summed("node_schedstat_running_seconds_total"@), summed("node_schedstat_waiting_seconds_total"@),
        plain("node_procs_running"@), plain("node_procs_blocked"@),
        plain("node_context_switches_total"@), plain("node_intr_total"@),
    ]
}

/// The sample whose presence makes a host report CPU facts.
pub open spec fn cpu_trigger() -> Lookup {
    Lookup { name: "node_load1"@, labels: None, summary_only: false }
}

fn cpu_lookup_table() -> (t: Vec<ExecLookup>)
    ensures
        lookup_views(t@) == cpu_lookups(),
{
    let cpu = "node_cpu_seconds_total";
    let guest = "node_cpu_guest_seconds_total";
    let t = vec![
        lookup_by_name("node_load1"), lookup_by_name("node_load5"), lookup_by_name("node_load15"),
        lookup_bucket(cpu, "_idle"), lookup_bucket(cpu, "_irq"), lookup_bucket(cpu, "_softirq"),
        lookup_bucket(cpu, "_system"), lookup_bucket(cpu, "_user"), lookup_bucket(cpu, "_iowait"),
        lookup_bucket(cpu, "_nice"), lookup_bucket(cpu, "_steal"),
        lookup_bucket(guest, "_nice"), lookup_bucket(guest, "_user"),
        lookup_summary("node_schedstat_running_seconds_total"),
        lookup_summary("node_schedstat_waiting_seconds_total"),
        lookup_by_name("node_procs_running"), lookup_by_name("node_procs_blocked"),
        lookup_by_name("node_context_switches_total"), lookup_by_name("node_intr_total"),
    ];
    assert(lookup_views(t@) =~= cpu_lookups());
    t
}

/// The entries whose samples hold a sample that the trigger selects, in order.
pub open spec fn reporting(e: Seq<HostEntry>, trigger: Lookup) -> Seq<HostEntry>
    decreases e.len(),
{
    if e.len() == 0 {
        Seq::empty()
    } else if first_match(sample_views(e.last().samples@), trigger) is Some {
        reporting(e.drop_last(), trigger).push(e.last())
    } else {
        reporting(e.drop_last(), trigger)
    }
}

/// Every entry that the trigger selects exposes every looked-up field.
pub open spec fn complete(e: Seq<HostEntry>, trigger: Lookup, t: Seq<Lookup>) -> bool {
    forall|i: int|
        0 <= i < e.len() && (#[trigger] first_match(sample_views(e[i].samples@), trigger)) is Some
            ==> all_found(sample_views(e[i].samples@), t)
}

/// The CPU fact of a host, as its samples give it.
pub open spec fn cpu_fact_of(d: CpuDetails, entry: HostEntry) -> bool {
    let s = sample_views(entry.samples@);
    &&& d.hostname_port@ == entry.identity@
    &&& d.timestamp as int == first_match(s, cpu_trigger()).unwrap().timestamp
    &&& d.fields() == found_values(s, cpu_lookups())
}

fn cpu_fact(entry: &HostEntry, table: &Vec<ExecLookup>) -> (r: Result<CpuDetails, MissingMetric>)
    requires
        lookup_views(table@) == cpu_lookups(),
        first_match(sample_views(entry.samples@), cpu_trigger()) is Some,
    ensures
        match r {
            Ok(d) => all_found(sample_views(entry.samples@), cpu_lookups()) && cpu_fact_of(d, *entry),
            Err(_) => !all_found(sample_views(entry.samples@), cpu_lookups()),
        },
{
    let s = &entry.samples;
    let trigger = lookup_by_name("node_load1");
    let timestamp = match find_first(s, &trigger) {
        Some(i) => s[i].node_exporter_timestamp,
        None => 0,
    };
    match find_all(s, table) {
        Err(j) => Err(MissingMetric { hostname_port: entry.identity.clone(), metric: table[j].name.to_owned() }),
        Ok(v) => {
            assert(v@.map_values(|x: i128| x as int).len() == cpu_lookups().len());
            let d = CpuDetails {
                hostname_port: entry.identity.clone(),
                timestamp: timestamp,
                load_1: v[0],
                load_5: v[1],
                load_15: v[2],
                cpu_idle: v[3],
                cpu_irq: v[4],
                cpu_softirq: v[5],
                cpu_system: v[6],
                cpu_user: v[7],
                cpu_iowait: v[8],
                cpu_nice: v[9],
                cpu_steal: v[10],
                cpu_guest_nice: v[11],
                cpu_guest_user: v[12],
                schedstat_running: v[13],
                schedstat_waiting: v[14],
                procs_running: v[15],
                procs_blocked: v[16],
                context_switches: v[17],
                interrupts: v[18],
            };
            assert(d.fields() =~= v@.map_values(|x: i128| x as int));
            Ok(d)
        },
    }
}

/// The CPU facts of every host that reports a load average, in snapshot
/// order; an error names a host that reports one but lacks another field.
pub fn cpu_details(values: &HostSnapshot) -> (r: Result<Vec<CpuDetails>, MissingMetric>)
    ensures
        r is Ok <==> complete(values.entries@, cpu_trigger(), cpu_lookups()),
        r matches Ok(v) ==> v@.len() == reporting(values.entries@, cpu_trigger()).len() && forall|k: int|
            0 <= k < v@.len() ==> cpu_fact_of(#[trigger] v@[k], reporting(values.entries@, cpu_trigger())[k]),
{
    let ghost ev = values.entries@;
    let table = cpu_lookup_table();
    let trigger = lookup_by_name("node_load1");
    let mut out: Vec<CpuDetails> = Vec::new();
    let mut i: usize = 0;
    assert(ev.subrange(0, 0) =~= Seq::<HostEntry>::empty());
    while i < values.entries.len()
        invariant
            i <= ev.len(),
            ev == values.entries@,
            lookup_views(table@) == cpu_lookups(),
            trigger@ == cpu_trigger(),
            complete(ev.subrange(0, i as int), cpu_trigger(), cpu_lookups()),
            out@.len() == reporting(ev.subrange(0, i as int), cpu_trigger()).len(),
            forall|k: int|
                0 <= k < out@.len() ==> cpu_fact_of(#[trigger] out@[k], reporting(ev.subrange(0, i as int), cpu_trigger())[k]),
        decreases ev.len() - i,
    {
        let entry = &values.entries[i];
        let ghost prefix = ev.subrange(0, i as int);
        let ghost next = ev.subrange(0, i + 1);
        assert(next.drop_last() =~= prefix);
        assert(next.last() == *entry);
        if find_first(&entry.samples, &trigger).is_some() {
            match cpu_fact(entry, &table) {
                Ok(d) => {
                    out.push(d);
                },
                Err(m) => {
                    proof {
                        assert(ev[i as int] == *entry);
                        assert(!complete(ev, cpu_trigger(), cpu_lookups()));
                    }
                    return Err(m);
                },
            }
        }
        proof {
            assert forall|j: int|
                0 <= j < next.len() && (#[trigger] first_match(sample_views(next[j].samples@), cpu_trigger())) is Some
                    implies all_found(sample_views(next[j].samples@), cpu_lookups()) by {
                if j < i {
                    assert(next[j] == prefix[j]);
                }
            }
        }
        i = i + 1;
    }
    assert(ev.subrange(0, ev.len() as int) =~= ev);
    Ok(out)
}

// ---------------------------------------------------------------- database I/O

/// Database write-ahead-log and storage-engine counters of one host at one
/// moment. Values are in thousandths; `timestamp` is in milliseconds.
#[derive(Debug)]
pub struct YugabyteIODetails {
    pub hostname_port: String,
    pub timestamp: i64,
    pub glog_messages_info: i128,
    pub glog_messages_prio: i128,
    pub log_bytes_logged: i128,
    pub log_reader_bytes_read: i128,
    pub log_sync_latency_count: i128,
    pub log_sync_latency_sum: i128,
    pub log_append_latency_count: i128,
    pub log_append_latency_sum: i128,
    pub log_cache_disk_reads: i128,
    pub rocksdb_flush_write_bytes: i128,
    pub rocksdb_compact_read_bytes: i128,
    pub rocksdb_compact_write_bytes: i128,
    pub rocksdb_write_raw_block_micros_count: i128,
    pub rocksdb_write_raw_block_micros_sum: i128,
    pub rocksdb_sst_read_micros_count: i128,
    pub rocksdb_sst_read_micros_sum: i128,
}

impl YugabyteIODetails {
    /// The counters in declaration order.
    pub open spec fn fields(&self) -> Seq<int> {
        seq![
            self.glog_messages_info as int,
            self.glog_messages_prio as int,
            self.log_bytes_logged as int,
            self.log_reader_bytes_read as int,
            self.log_sync_latency_count as int,
            self.log_sync_latency_sum as int,
            self.log_append_latency_count as int,
            self.log_append_latency_sum as int,
            self.log_cache_disk_reads as int,
            self.rocksdb_flush_write_bytes as int,
            self.rocksdb_compact_read_bytes as int,
            self.rocksdb_compact_write_bytes as int,
            self.rocksdb_write_raw_block_micros_count as int,
            self.rocksdb_write_raw_block_micros_sum as int,
            self.rocksdb_sst_read_micros_count as int,
            self.rocksdb_sst_read_micros_sum as int,
        ]
    }
}

/// Where each database I/O field is read from: the summary of the same name.
pub open spec fn yugabyte_lookups() -> Seq<Lookup> {
    let summed = |n: Seq<char>| Lookup { name: n, labels: None, summary_only: true };
    seq![
        summed("glog_messages_info"@),
        summed("glog_messages_prio"@),
        summed("log_bytes_logged"@),
        summed("log_reader_bytes_read"@),
        summed("log_sync_latency_count"@),
        summed("log_sync_latency_sum"@),
        summed("log_append_latency_count"@),
        summed("log_append_latency_sum"@),
        summed("log_cache_disk_reads"@),
        summed("rocksdb_flush_write_bytes"@),
        summed("rocksdb_compact_read_bytes"@),
        summed("rocksdb_compact_write_bytes"@),
        summed("rocksdb_write_raw_block_micros_count"@),
        summed("rocksdb_write_raw_block_micros_sum"@),
        summed("rocksdb_sst_read_micros_count"@),
        summed("rocksdb_sst_read_micros_sum"@),
    ]
}

/// The sample whose presence makes a host report database I/O facts.
pub open spec fn yugabyte_trigger() -> Lookup {
    Lookup { name: "log_bytes_logged"@, labels: None, summary_only: false }
}

fn yugabyte_lookup_table() -> (t: Vec<ExecLookup>)
    ensures
        lookup_views(t@) == yugabyte_lookups(),
{
    let t = vec![
        lookup_summary("glog_messages_info"),
        lookup_summary("glog_messages_prio"),
        lookup_summary("log_bytes_logged"),
        lookup_summary("log_reader_bytes_read"),
        lookup_summary("log_sync_latency_count"),
        lookup_summary("log_sync_latency_sum"),
        lookup_summary("log_append_latency_count"),
        lookup_summary("log_append_latency_sum"),
        lookup_summary("log_cache_disk_reads"),
        lookup_summary("rocksdb_flush_write_bytes"),
        lookup_summary("rocksdb_compact_read_bytes"),
        lookup_summary("rocksdb_compact_write_bytes"),
        lookup_summary("rocksdb_write_raw_block_micros_count"),
        lookup_summary("rocksdb_write_raw_block_micros_sum"),
        lookup_summary("rocksdb_sst_read_micros_count"),
        lookup_summary("rocksdb_sst_read_micros_sum"),
    ];
    assert(lookup_views(t@) =~= yugabyte_lookups());
    t
}

/// The database I/O fact of a host, as its samples give it.
pub open spec fn yugabyte_fact_of(d: YugabyteIODetails, entry: HostEntry) -> bool {
    let s = sample_views(entry.samples@);
    &&& d.hostname_port@ == entry.identity@
    &&& d.timestamp as int == first_match(s, yugabyte_trigger()).unwrap().timestamp
    &&& d.fields() == found_values(s, yugabyte_lookups())
}

fn yugabyte_fact(entry: &HostEntry, table: &Vec<ExecLookup>) -> (r: Result<YugabyteIODetails, MissingMetric>)
    requires
        lookup_views(table@) == yugabyte_lookups(),
        first_match(sample_views(entry.samples@), yugabyte_trigger()) is Some,
    ensures
        match r {
            Ok(d) => all_found(sample_views(entry.samples@), yugabyte_lookups()) && yugabyte_fact_of(d, *entry),
            Err(_) => !all_found(sample_views(entry.samples@), yugabyte_lookups()),
        },
{
    let s = &entry.samples;
    let trigger = lookup_by_name("log_bytes_logged");
    let timestamp = match find_first(s, &trigger) {
        Some(i) => s[i].node_exporter_timestamp,
        None => 0,
    };
    match find_all(s, table) {
        Err(j) => Err(MissingMetric { hostname_port: entry.identity.clone(), metric: table[j].name.to_owned() }),
        Ok(v) => {
            assert(v@.map_values(|x: i128| x as int).len() == yugabyte_lookups().len());
            let d = YugabyteIODetails {
                hostname_port: entry.identity.clone(),
                timestamp: timestamp,
                glog_messages_info: v[0],
                glog_messages_prio: v[1],
                log_bytes_logged: v[2],
                log_reader_bytes_read: v[3],
                log_sync_latency_count: v[4],
                log_sync_latency_sum: v[5],
                log_append_latency_count: v[6],
                log_append_latency_sum: v[7],
                log_cache_disk_reads: v[8],
                rocksdb_flush_write_bytes: v[9],
                rocksdb_compact_read_bytes: v[10],
                rocksdb_compact_write_bytes: v[11],
                rocksdb_write_raw_block_micros_count: v[12],
                rocksdb_write_raw_block_micros_sum: v[13],
                rocksdb_sst_read_micros_count: v[14],
                rocksdb_sst_read_micros_sum: v[15],
            };
            assert(d.fields() =~= v@.map_values(|x: i128| x as int));
            Ok(d)
        },
    }
}

/// The database I/O facts of every host that reports WAL bytes logged, in
/// snapshot order; an error names a host that lacks another field.
pub fn yugabyte_details(values: &HostSnapshot) -> (r: Result<Vec<YugabyteIODetails>, MissingMetric>)
    ensures
        r is Ok <==> complete(values.entries@, yugabyte_trigger(), yugabyte_lookups()),
        r matches Ok(v) ==> v@.len() == reporting(values.entries@, yugabyte_trigger()).len() && forall|k: int|
            0 <= k < v@.len() ==> yugabyte_fact_of(#[trigger] v@[k], reporting(values.entries@, yugabyte_trigger())[k]),
{
    let ghost ev = values.entries@;
    let table = yugabyte_lookup_table();
    let trigger = lookup_by_name("log_bytes_logged");
    let mut out: Vec<YugabyteIODetails> = Vec::new();
    let mut i: usize = 0;
    assert(ev.subrange(0, 0) =~= Seq::<HostEntry>::empty());
    while i < values.entries.len()
        invariant
            i <= ev.len(),
            ev == values.entries@,
            lookup_views(table@) == yugabyte_lookups(),
            trigger@ == yugabyte_trigger(),
            complete(ev.subrange(0, i as int), yugabyte_trigger(), yugabyte_lookups()),
            out@.len() == reporting(ev.subrange(0, i as int), yugabyte_trigger()).len(),
            forall|k: int|
                0 <= k < out@.len() ==> yugabyte_fact_of(#[trigger] out@[k], reporting(ev.subrange(0, i as int), yugabyte_trigger())[k]),
        decreases ev.len() - i,
    {
        let entry = &values.entries[i];
        let ghost prefix = ev.subrange(0, i as int);
        let ghost next = ev.subrange(0, i + 1);
        assert(next.drop_last() =~= prefix);
        assert(next.last() == *entry);
        if find_first(&entry.samples, &trigger).is_some() {
            match yugabyte_fact(entry, &table) {
                Ok(d) => {
                    out.push(d);
                },
                Err(m) => {
                    proof {
                        assert(ev[i as int] == *entry);
                        assert(!complete(ev, yugabyte_trigger(), yugabyte_lookups()));
                    }
                    return Err(m);
                },
            }
        }
        proof {
            assert forall|j: int|
                0 <= j < next.len() && (#[trigger] first_match(sample_views(next[j].samples@), yugabyte_trigger())) is Some
                    implies all_found(sample_views(next[j].samples@), yugabyte_lookups()) by {
                if j < i {
                    assert(next[j] == prefix[j]);
                }
            }
        }
        i = i + 1;
    }
    assert(ev.subrange(0, ev.len() as int) =~= ev);
    Ok(out)
}

// ---------------------------------------------------------------- disks

/// Counters of one disk at one moment, in thousandths.
#[derive(Debug)]
pub struct DiskDetail {
    pub disk_name: String,
    pub reads_completed: i128,
    pub writes_completed: i128,
    pub discards_completed: i128,
    pub reads_merged: i128,
    pub writes_merged: i128,
    pub discards_merged: i128,
    pub reads_bytes: i128,
    pub writes_bytes: i128,
    pub discards_sectors: i128,
    pub reads_time: i128,
    pub writes_time: i128,
    pub discards_time: i128,
    pub total_time: i128,
    pub queue: i128,
}

impl DiskDetail {
    /// The counters in declaration order.
    pub open spec fn fields(&self) -> Seq<int> {
        seq![
            self.reads_completed as int,
            self.writes_completed as int,
            self.discards_completed as int,
            self.reads_merged as int,
            self.writes_merged as int,
            self.discards_merged as int,
            self.reads_bytes as int,
            self.writes_bytes as int,
            self.discards_sectors as int,
            self.reads_time as int,
            self.writes_time as int,
            self.discards_time as int,
            self.total_time as int,
            self.queue as int,
        ]
    }
}

/// The disks of one host at one moment; `timestamp` is in milliseconds.
#[derive(Debug)]
pub struct DiskHost {
    pub hostname_port: String,
    pub timestamp: i64,
    pub diskdetail: Vec<DiskDetail>,
}

/// The family that lists a host's disks.
pub open spec fn disk_trigger() -> Lookup {
    Lookup { name: "node_disk_reads_completed_total"@, labels: None, summary_only: false }
}

/// A sample that stands for one physical disk: a reads-completed sample of
/// a device that is not a device-mapper device.
pub open spec fn is_disk_row(r: SampleView) -> bool {
    r.name == "node_disk_reads_completed_total"@ && !has_substring(r.labels, "dm-"@)
}

/// The samples of `s` that stand for disks, in order: the first sample of
/// each distinct fingerprint.
pub open spec fn disk_rows(s: Seq<SampleView>) -> Seq<SampleView>
    decreases s.len(),
{
    if s.len() == 0 {
        Seq::empty()
    } else if is_disk_row(s.last()) && !row_labels(disk_rows(s.drop_last())).contains(s.last().labels) {
        disk_rows(s.drop_last()).push(s.last())
    } else {
        disk_rows(s.drop_last())
    }
}

/// The fingerprints of a sequence of samples.
pub open spec fn row_labels(rows: Seq<SampleView>) -> Seq<Seq<char>> {
    rows.map_values(|r: SampleView| r.labels)
}

/// Where each disk counter is read from, for the disk with fingerprint `row`.
pub open spec fn disk_lookups(row: Seq<char>) -> Seq<Lookup> {
    let at = |n: Seq<char>| Lookup { name: n, labels: Some(row), summary_only: false };
    seq![
        at("node_disk_reads_completed_total"@),
        at("node_disk_writes_completed_total"@),
        at("node_disk_discards_completed_total"@),
        at("node_disk_reads_merged_total"@),
        at("node_disk_writes_merged_total"@),
        at("node_disk_discards_merged_total"@),
        at("node_disk_read_bytes_total"@),
        at("node_disk_written_bytes_total"@),
        at("node_disk_discarded_sectors_total"@),
        at("node_disk_read_time_seconds_total"@),
        at("node_disk_write_time_seconds_total"@),
        at("node_disk_discard_time_seconds_total"@),
        at("node_disk_io_time_seconds_total"@),
        at("node_disk_io_time_weighted_seconds_total"@),
    ]
}

/// The discard counters, which some kernels do not expose: they read as 0
/// when absent.
pub open spec fn disk_optional(j: int) -> bool {
    j == 2 || j == 5 || j == 8 || j == 11
}

/// The value that the lookup selects, or 0 when it selects none.
pub open spec fn value_or_zero(s: Seq<SampleView>, l: Lookup) -> int {
    match first_match(s, l) {
        Some(r) => r.value,
        None => 0,
    }
}

/// The counters of the disk with fingerprint `row`.
pub open spec fn disk_values(s: Seq<SampleView>, row: Seq<char>) -> Seq<int> {
    disk_lookups(row).map_values(|l: Lookup| value_or_zero(s, l))
}

/// Every counter but the discard counters is exposed for the disk.
pub open spec fn disk_found(s: Seq<SampleView>, row: Seq<char>) -> bool {
    forall|j: int| 0 <= j < 14 && !disk_optional(j) ==> (#[trigger] first_match(s, disk_lookups(row)[j])) is Some
}

/// The disk name: the fingerprint without its leading `_`.
pub open spec fn disk_name_of(row: Seq<char>) -> Seq<char> {
    if row.len() > 0 {
        row.drop_first()
    } else {
        row
    }
}

/// The fact of the disk with fingerprint `row`, as the samples give it.
pub open spec fn disk_detail_of(d: DiskDetail, s: Seq<SampleView>, row: Seq<char>) -> bool {
    d.disk_name@ == disk_name_of(row) && d.fields() == disk_values(s, row)
}

/// Every disk of the host exposes its required counters.
pub open spec fn disks_found(s: Seq<SampleView>) -> bool {
    forall|k: int| 0 <= k < disk_rows(s).len() ==> disk_found(s, #[trigger] disk_rows(s)[k].labels)
}

/// The disk facts of a host, as its samples give them.
pub open spec fn disk_host_of(h: DiskHost, entry: HostEntry) -> bool {
    let s = sample_views(entry.samples@);
    &&& h.hostname_port@ == entry.identity@
    &&& s.len() > 0 && h.timestamp as int == s[0].timestamp
    &&& h.diskdetail@.len() == disk_rows(s).len()
    &&& forall|k: int| 0 <= k < h.diskdetail@.len() ==> disk_detail_of(#[trigger] h.diskdetail@[k], s, disk_rows(s)[k].labels)
    &&& row_labels(disk_rows(s)).no_duplicates()
    &&& forall|i: int| 0 <= i < s.len() && is_disk_row(#[trigger] s[i]) ==> row_labels(disk_rows(s)).contains(s[i].labels)
}

/// Every host that lists disks exposes the required counters of each.
pub open spec fn disks_complete(e: Seq<HostEntry>) -> bool {
    forall|i: int|
        0 <= i < e.len() && (#[trigger] first_match(sample_views(e[i].samples@), disk_trigger())) is Some
            ==> disks_found(sample_views(e[i].samples@))
}

fn disk_lookup_table(row: &str) -> (t: Vec<ExecLookup>)
    ensures
        lookup_views(t@) == disk_lookups(row@),
{
    let t = vec![
        lookup_labelled("node_disk_reads_completed_total", row),
        lookup_labelled("node_disk_writes_completed_total", row),
        lookup_labelled("node_disk_discards_completed_total", row),
        lookup_labelled("node_disk_reads_merged_total", row),
        lookup_labelled("node_disk_writes_merged_total", row),
        lookup_labelled("node_disk_discards_merged_total", row),
        lookup_labelled("node_disk_read_bytes_total", row),
        lookup_labelled("node_disk_written_bytes_total", row),
        lookup_labelled("node_disk_discarded_sectors_total", row),
        lookup_labelled("node_disk_read_time_seconds_total", row),
        lookup_labelled("node_disk_write_time_seconds_total", row),
        lookup_labelled("node_disk_discard_time_seconds_total", row),
        lookup_labelled("node_disk_io_time_seconds_total", row),
        lookup_labelled("node_disk_io_time_weighted_seconds_total", row),
    ];
    assert(lookup_views(t@) =~= disk_lookups(row@));
    t
}

/// The fact of the disk with fingerprint `row`, or the missing counter.
fn disk_detail(s: &Vec<NodeExporterValues>, row: &str) -> (r: Result<DiskDetail, &'static str>)
    ensures
        match r {
            Ok(d) => disk_found(sample_views(s@), row@) && disk_detail_of(d, sample_views(s@), row@),
            Err(_) => !disk_found(sample_views(s@), row@),
        },
{
    let ghost sv = sample_views(s@);
    let table = disk_lookup_table(row);
    let ghost tv = lookup_views(table@);
    assert(tv.len() == 14);
    let mut v: Vec<i128> = Vec::new();
    let mut j: usize = 0;
    while j < table.len()
        invariant
            j <= table.len(),
            table.len() == 14,
            sv == sample_views(s@),
            tv == lookup_views(table@),
            tv == disk_lookups(row@),
            v@.len() == j,
            forall|k: int| 0 <= k < j && !disk_optional(k) ==> (#[trigger] first_match(sv, tv[k])) is Some,
            forall|k: int| 0 <= k < j ==> v@[k] as int == #[trigger] value_or_zero(sv, tv[k]),
        decreases table.len() - j,
    {
        assert(tv[j as int] == table@[j as int]@);
        match find_first(s, &table[j]) {
            Some(i) => {
                v.push(s[i].node_exporter_value);
            },
            None => {
                if !(j == 2 || j == 5 || j == 8 || j == 11) {
                    return Err(table[j].name);
                }
                v.push(0);
            },
        }
        j = j + 1;
    }
    let name = if row.unicode_len() > 0 {
        row.substring_char(1, row.unicode_len()).to_owned()
    } else {
        row.to_owned()
    };
    assert(row@.len() > 0 ==> row@.subrange(1, row@.len() as int) =~= row@.drop_first());
    let d = DiskDetail {
        disk_name: name,
        reads_completed: v[0],
        writes_completed: v[1],
        discards_completed: v[2],
        reads_merged: v[3],
        writes_merged: v[4],
        discards_merged: v[5],
        reads_bytes: v[6],
        writes_bytes: v[7],
        discards_sectors: v[8],
        reads_time: v[9],
        writes_time: v[10],
        discards_time: v[11],
        total_time: v[12],
        queue: v[13],
    };
    assert(d.fields() =~= disk_values(sv, row@));
    Ok(d)
}

/// Whether `x` is one of `v`.
fn strings_contain(v: &Vec<String>, x: &str) -> (r: bool)
    ensures
        r == v@.map_values(|s: String| s@).contains(x@),
{
    let ghost vv = v@.map_values(|s: String| s@);
    let mut i: usize = 0;
    while i < v.len()
        invariant
            i <= v.len(),
            vv == v@.map_values(|s: String| s@),
            forall|j: int| 0 <= j < i ==> #[trigger] vv[j] != x@,
        decreases v.len() - i,
    {
        if str_eq(v[i].as_str(), x) {
            assert(vv[i as int] == x@);
            return true;
        }
        i = i + 1;
    }
    false
}

/// The disk facts of one host that lists disks.
fn disk_host(entry: &HostEntry) -> (r: Result<DiskHost, MissingMetric>)
    requires
        first_match(sample_views(entry.samples@), disk_trigger()) is Some,
    ensures
        r is Err ==> !disks_found(sample_views(entry.samples@)),
        r matches Ok(h) ==> disks_found(sample_views(entry.samples@)) && disk_host_of(h, *entry),
{
    let s = &entry.samples;
    let ghost sv = sample_views(s@);
    proof {
        lemma_first_match_nonempty(sv, disk_trigger());
    }
    let mut disks: Vec<DiskDetail> = Vec::new();
    let mut seen: Vec<String> = Vec::new();
    let mut i: usize = 0;
    assert(sv.subrange(0, 0) =~= Seq::<SampleView>::empty());
    assert(row_labels(disk_rows(sv.subrange(0, 0))) =~= Seq::<Seq<char>>::empty());
    while i < s.len()
        invariant
            i <= s.len(),
            sv == sample_views(s@),
            s@ == entry.samples@,
            seen@.map_values(|x: String| x@) == row_labels(disk_rows(sv.subrange(0, i as int))),
            disks@.len() == disk_rows(sv.subrange(0, i as int)).len(),
            forall|k: int| 0 <= k < disk_rows(sv.subrange(0, i as int)).len() ==> disk_found(
                sv,
                #[trigger] disk_rows(sv.subrange(0, i as int))[k].labels,
            ),
            forall|k: int|
                0 <= k < disks@.len() ==> disk_detail_of(#[trigger] disks@[k], sv, disk_rows(sv.subrange(0, i as int))[k].labels),
        decreases s.len() - i,
    {
        let r = &s[i];
        let ghost prefix = sv.subrange(0, i as int);
        let ghost next = sv.subrange(0, i + 1);
        assert(next.drop_last() =~= prefix);
        assert(next.last() == r@);
        if str_eq(r.node_exporter_name.as_str(), "node_disk_reads_completed_total") && !contains_str(
            r.node_exporter_labels.as_str(),
            "dm-",
        ) && !strings_contain(&seen, r.node_exporter_labels.as_str()) {
            match disk_detail(s, r.node_exporter_labels.as_str()) {
                Ok(d) => {
                    disks.push(d);
                    let ghost before = seen@;
                    seen.push(r.node_exporter_labels.clone());
                    assert(seen@.map_values(|x: String| x@) =~= before.map_values(|x: String| x@).push(r@.labels));
                    assert(row_labels(disk_rows(next)) =~= row_labels(disk_rows(prefix)).push(r@.labels));
                },
                Err(metric) => {
                    proof {
                        assert(disk_rows(next) == disk_rows(prefix).push(r@));
                        lemma_disk_rows_prefix(sv, i + 1);
                        let k = disk_rows(prefix).len() as int;
                        assert(disk_rows(next)[k] == r@);
                        assert(disk_rows(sv)[k] == r@);
                        assert(!disk_found(sv, disk_rows(sv)[k].labels));
                        assert(k < disk_rows(sv).len());
                        assert(!disks_found(sv));
                    }
                    return Err(MissingMetric { hostname_port: entry.identity.clone(), metric: metric.to_owned() });
                },
            }
        }
        i = i + 1;
    }
    assert(sv.subrange(0, s.len() as int) =~= sv);
    proof {
        lemma_disk_rows_distinct(sv);
    }
    Ok(DiskHost { hostname_port: entry.identity.clone(), timestamp: s[0].node_exporter_timestamp, diskdetail: disks })
}

proof fn lemma_first_match_nonempty(s: Seq<SampleView>, l: Lookup)
    ensures
        first_match(s, l) is Some ==> s.len() > 0,
{
}

proof fn lemma_disk_rows_prefix(s: Seq<SampleView>, n: int)
    requires
        0 <= n <= s.len(),
    ensures
        disk_rows(s.subrange(0, n)).len() <= disk_rows(s).len(),
        forall|k: int| 0 <= k < disk_rows(s.subrange(0, n)).len() ==> #[trigger] disk_rows(s.subrange(0, n))[k] == disk_rows(s)[k],
    decreases s.len() - n,
{
    if n < s.len() {
        lemma_disk_rows_prefix(s, n + 1);
        let a = s.subrange(0, n);
        let b = s.subrange(0, n + 1);
        assert(b.drop_last() =~= a);
        assert forall|k: int| 0 <= k < disk_rows(a).len() implies #[trigger] disk_rows(a)[k] == disk_rows(s)[k] by {
            assert(disk_rows(b)[k] == disk_rows(a)[k]);
        }
    } else {
        assert(s.subrange(0, n) =~= s);
    }
}

/// The disk facts of every host that lists disks, in snapshot order, each
/// with one fact per disk that is not a device-mapper device; an error names
/// a host that lacks a required counter of one of its disks.
pub fn disk_details(values: &HostSnapshot) -> (r: Result<Vec<DiskHost>, MissingMetric>)
    ensures
        r is Ok <==> disks_complete(values.entries@),
        r matches Ok(v) ==> v@.len() == reporting(values.entries@, disk_trigger()).len() && forall|k: int|
            0 <= k < v@.len() ==> disk_host_of(#[trigger] v@[k], reporting(values.entries@, disk_trigger())[k]),
{
    let ghost ev = values.entries@;
    let trigger = lookup_by_name("node_disk_reads_completed_total");
    let mut out: Vec<DiskHost> = Vec::new();
    let mut i: usize = 0;
    assert(ev.subrange(0, 0) =~= Seq::<HostEntry>::empty());
    while i < values.entries.len()
        invariant
            i <= ev.len(),
            ev == values.entries@,
            trigger@ == disk_trigger(),
            disks_complete(ev.subrange(0, i as int)),
            out@.len() == reporting(ev.subrange(0, i as int), disk_trigger()).len(),
            forall|k: int|
                0 <= k < out@.len() ==> disk_host_of(#[trigger] out@[k], reporting(ev.subrange(0, i as int), disk_trigger())[k]),
        decreases ev.len() - i,
    {
        let entry = &values.entries[i];
        let ghost prefix = ev.subrange(0, i as int);
        let ghost next = ev.subrange(0, i + 1);
        assert(next.drop_last() =~= prefix);
        assert(next.last() == *entry);
        if find_first(&entry.samples, &trigger).is_some() {
            match disk_host(entry) {
                Ok(h) => {
                    out.push(h);
                },
                Err(m) => {
                    proof {
                        assert(ev[i as int] == *entry);
                        assert(!disks_complete(ev));
                    }
                    return Err(m);
                },
            }
        }
        proof {
            assert forall|j: int|
                0 <= j < next.len() && (#[trigger] first_match(sample_views(next[j].samples@), disk_trigger())) is Some
                    implies disks_found(sample_views(next[j].samples@)) by {
                if j < i {
                    assert(next[j] == prefix[j]);
                }
            }
        }
        i = i + 1;
    }
    assert(ev.subrange(0, ev.len() as int) =~= ev);
    Ok(out)
}

proof fn lemma_disk_rows_are_rows(s: Seq<SampleView>)
    ensures
        forall|k: int| 0 <= k < disk_rows(s).len() ==> is_disk_row(#[trigger] disk_rows(s)[k]),
    decreases s.len(),
{
    if s.len() > 0 {
        let prev = disk_rows(s.drop_last());
        lemma_disk_rows_are_rows(s.drop_last());
        assert forall|k: int| 0 <= k < disk_rows(s).len() implies is_disk_row(#[trigger] disk_rows(s)[k]) by {
            if k < prev.len() {
                assert(disk_rows(s)[k] == prev[k]);
            }
        }
    }
}

/// Disk facts never stand for a device-mapper device: the fingerprint of
/// every disk row lacks the marker `dm-`, and so does the disk name taken
/// from it.
pub proof fn lemma_disks_exclude_device_mapper(s: Seq<SampleView>)
    ensures
        forall|k: int| 0 <= k < disk_rows(s).len() ==> !has_substring(#[trigger] disk_rows(s)[k].labels, "dm-"@),
        forall|k: int| 0 <= k < disk_rows(s).len() ==> !has_substring(disk_name_of(#[trigger] disk_rows(s)[k].labels), "dm-"@),
{
    lemma_disk_rows_are_rows(s);
    assert forall|k: int| 0 <= k < disk_rows(s).len() implies !has_substring(disk_name_of(#[trigger] disk_rows(s)[k].labels), "dm-"@) by {
        let row = disk_rows(s)[k].labels;
        let needle = "dm-"@;
        if row.len() > 0 && has_substring(row.drop_first(), needle) {
            let j = choose|j: int| 0 <= j && j + needle.len() <= row.drop_first().len() && #[trigger] row.drop_first().subrange(j, j + needle.len()) == needle;
            assert(row.subrange(j + 1, j + 1 + needle.len()) =~= row.drop_first().subrange(j, j + needle.len()));
        }
    }
}

/// Disk rows have distinct fingerprints, and every sample that stands for a
/// disk has its fingerprint among them: one disk fact per distinct
/// fingerprint.
pub proof fn lemma_disk_rows_distinct(s: Seq<SampleView>)
    ensures
        row_labels(disk_rows(s)).no_duplicates(),
        forall|i: int| 0 <= i < s.len() && is_disk_row(#[trigger] s[i]) ==> row_labels(disk_rows(s)).contains(s[i].labels),
    decreases s.len(),
{
    if s.len() > 0 {
        let p = s.drop_last();
        lemma_disk_rows_distinct(p);
        let pl = row_labels(disk_rows(p));
        if is_disk_row(s.last()) && !pl.contains(s.last().labels) {
            assert(row_labels(disk_rows(s)) =~= pl.push(s.last().labels));
            assert forall|a: int, b: int| 0 <= a < b < pl.push(s.last().labels).len() implies pl.push(s.last().labels)[a]
                != pl.push(s.last().labels)[b] by {
                if b == pl.len() {
                    assert(pl.contains(pl[a]));
                }
            }
        } else {
            assert(row_labels(disk_rows(s)) == pl);
        }
        let all = row_labels(disk_rows(s));
        assert forall|i: int| 0 <= i < s.len() && is_disk_row(#[trigger] s[i]) implies all.contains(s[i].labels) by {
            if i < s.len() - 1 {
                assert(p[i] == s[i]);
                let j = choose|j: int| 0 <= j < pl.len() && pl[j] == s[i].labels;
                if is_disk_row(s.last()) && !pl.contains(s.last().labels) {
                    assert(all[j] == pl[j]);
                }
            } else if is_disk_row(s.last()) && !pl.contains(s.last().labels) {
                assert(all[pl.len() as int] == s[i].labels);
            }
        }
    }
}

/// Disk names are distinct when every disk fingerprint starts with `_`, as
/// every non-empty label fingerprint does.
pub proof fn lemma_disk_names_distinct(s: Seq<SampleView>)
    requires
        forall|k: int| 0 <= k < disk_rows(s).len() ==> (#[trigger] disk_rows(s)[k]).labels.len() > 0
            && disk_rows(s)[k].labels[0] == '_',
    ensures
        forall|a: int, b: int| 0 <= a < b < disk_rows(s).len() ==> disk_name_of(#[trigger] disk_rows(s)[a].labels)
            != disk_name_of(#[trigger] disk_rows(s)[b].labels),
{
    lemma_disk_rows_distinct(s);
    let rl = row_labels(disk_rows(s));
    assert forall|a: int, b: int| 0 <= a < b < disk_rows(s).len() implies disk_name_of(#[trigger] disk_rows(s)[a].labels)
        != disk_name_of(#[trigger] disk_rows(s)[b].labels) by {
        let x = disk_rows(s)[a].labels;
        let y = disk_rows(s)[b].labels;
        assert(rl[a] == x && rl[b] == y);
        if disk_name_of(x) == disk_name_of(y) {
            assert(x =~= seq![x[0]] + x.drop_first());
            assert(y =~= seq![y[0]] + y.drop_first());
        }
    }
}

} // verus!
