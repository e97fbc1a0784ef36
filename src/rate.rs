//! Rates of change of cumulative counters, and the per-entity state that
//! the rate engine keeps between cycles.
use vstd::prelude::*;
use crate::facts::{CpuDetails, DiskDetail, DiskHost, YugabyteIODetails};
use crate::text::{label_le, label_leq, labels_ascending, lemma_insert_keeps_order, lemma_leq_total, str_eq};
use vstd::string::StringExecFns;

verus! {

/// A per-second rate of change, in thousandths of the counter's unit per
/// second (truncated toward zero), or `Undefined` when no elapsed time lies
/// between the two observations, or the rate does not fit the type.
#[derive(Clone, Copy, Debug, PartialEq, Eq, Structural)]
pub enum Rate {
    PerSecond(i128),
    Undefined,
}

/// A counter's last value with the rate computed when it was taken.
#[derive(Clone, Copy, Debug, PartialEq, Eq, Structural)]
pub struct CounterRate {
    pub counter: i128,
    pub rate: Rate,
}

/// The value fits an `i128`.
pub open spec fn fits_i128(v: int) -> bool {
    i128::MIN <= v <= i128::MAX
}

/// Absolute value.
pub open spec fn abs(v: int) -> int {
    if v < 0 {
        -v
    } else {
        v
    }
}

/// Division truncated toward zero.
pub open spec fn trunc_div(a: int, b: int) -> int {
    if (a < 0) == (b < 0) {
        abs(a) / abs(b)
    } else {
        -(abs(a) / abs(b))
    }
}

/// The rate of a counter that moved by `delta` thousandths in `elapsed_ms`
/// milliseconds, in thousandths per second: `delta * 1000 / elapsed_ms`.
pub open spec fn rate_of(delta: int, elapsed_ms: int) -> Rate {
    if elapsed_ms == 0 || !fits_i128(delta * 1000) {
        Rate::Undefined
    } else {
        Rate::PerSecond(trunc_div(delta * 1000, elapsed_ms) as i128)
    }
}

/// The state of a counter seen for the first time: its value, rate zero.
pub open spec fn seeded(value: i128) -> CounterRate {
    CounterRate { counter: value, rate: Rate::PerSecond(0) }
}

/// The state of a counter after a new observation `elapsed_ms` after the last.
pub open spec fn advanced(prev: CounterRate, value: i128, elapsed_ms: int) -> CounterRate {
    CounterRate { counter: value, rate: rate_of(value - prev.counter, elapsed_ms) }
}

/// The rate of a move of `delta` over `elapsed_ms` milliseconds.
pub fn compute_rate(delta: i128, elapsed_ms: i128) -> (r: Rate)
    ensures
        r == rate_of(delta as int, elapsed_ms as int),
{
    if elapsed_ms == 0 {
        return Rate::Undefined;
    }
    let scaled = match delta.checked_mul(1000) {
        Some(x) => x,
        None => {
            return Rate::Undefined;
        },
    };
    assert(scaled != i128::MIN);
    let a: i128 = if scaled < 0 { -scaled } else { scaled };
    if elapsed_ms == i128::MIN {
        assert(abs(scaled as int) / abs(elapsed_ms as int) == 0) by (nonlinear_arith)
            requires
                abs(scaled as int) < abs(elapsed_ms as int),
        ;
        return Rate::PerSecond(0);
    }
    let b: i128 = if elapsed_ms < 0 { -elapsed_ms } else { elapsed_ms };
    let q: i128 = a / b;
    assert(0 <= q <= a) by (nonlinear_arith)
        requires
            a >= 0,
            b >= 1,
            q == a / b,
    ;
    if (scaled < 0) == (elapsed_ms < 0) {
        Rate::PerSecond(q)
    } else {
        Rate::PerSecond(-q)
    }
}

/// The state of a counter after observing `value`, `elapsed_ms` after the
/// previous observation.
pub fn advance(prev: CounterRate, value: i128, elapsed_ms: i128) -> (r: CounterRate)
    ensures
        r == advanced(prev, value, elapsed_ms as int),
{
    let rate = match value.checked_sub(prev.counter) {
        Some(delta) => compute_rate(delta, elapsed_ms),
        None => Rate::Undefined,
    };
    CounterRate { counter: value, rate: rate }
}

/// Milliseconds from `earlier` to `later`.
pub fn elapsed_between(earlier: i64, later: i64) -> (r: i128)
    ensures
        r == later - earlier,
{
    later as i128 - earlier as i128
}

/// Per-entity states, by key. Keys are distinct and kept in ascending
/// order; `keys[i]` owns `states[i]`.
#[derive(Debug)]
pub struct Presentations<T> {
    pub keys: Vec<String>,
    pub states: Vec<T>,
}

/// The views of a sequence of keys.
pub open spec fn key_views(k: Seq<String>) -> Seq<Seq<char>> {
    k.map_values(|s: String| s@)
}

/// Index of the key in a list of distinct keys.
pub open spec fn key_index(k: Seq<Seq<char>>, key: Seq<char>) -> Option<int>
    decreases k.len(),
{
    if k.len() == 0 {
        None
    } else if k.last() == key {
        Some(k.len() - 1)
    } else {
        key_index(k.drop_last(), key)
    }
}

proof fn lemma_key_index(k: Seq<Seq<char>>, key: Seq<char>)
    ensures
        match key_index(k, key) {
            Some(i) => 0 <= i < k.len() && k[i] == key,
            None => !k.contains(key),
        },
    decreases k.len(),
{
    if k.len() > 0 && k.last() != key {
        lemma_key_index(k.drop_last(), key);
        match key_index(k.drop_last(), key) {
            Some(i) => {
                assert(k.drop_last()[i] == k[i]);
            },
            None => {
                if k.contains(key) {
                    let j = choose|j: int| 0 <= j < k.len() && k[j] == key;
                    assert(k.drop_last()[j] == key);
                }
            },
        }
    }
}

proof fn lemma_key_index_of_distinct(k: Seq<Seq<char>>, i: int)
    requires
        k.no_duplicates(),
        0 <= i < k.len(),
    ensures
        key_index(k, k[i]) == Some(i),
    decreases k.len(),
{
    if i < k.len() - 1 {
        assert(k.drop_last()[i] == k[i]);
        lemma_key_index_of_distinct(k.drop_last(), i);
    }
}

impl<T> Presentations<T> {
    /// Keys are distinct, in ascending `label_leq` order, and each has one state.
    pub open spec fn wf(&self) -> bool {
        &&& key_views(self.keys@).no_duplicates()
        &&& labels_ascending(key_views(self.keys@))
        &&& self.keys@.len() == self.states@.len()
    }

    /// The state kept for a key, if any.
    pub open spec fn state_of(&self, key: Seq<char>) -> Option<T> {
        match key_index(key_views(self.keys@), key) {
            Some(i) => Some(self.states@[i]),
            None => None,
        }
    }

    /// No states.
    pub fn new() -> (r: Presentations<T>)
        ensures
            r.wf(),
            forall|k: Seq<char>| #[trigger] r.state_of(k) is None,
    {
        Presentations { keys: Vec::new(), states: Vec::new() }
    }

    /// Number of keys.
    pub fn len(&self) -> (r: usize)
        requires
            self.wf(),
        ensures
            r == self.keys@.len(),
    {
        self.keys.len()
    }

    /// The position of a key.
    pub fn find(&self, key: &str) -> (r: Option<usize>)
        requires
            self.wf(),
        ensures
            match r {
                Some(i) => i < self.keys@.len() && key_index(key_views(self.keys@), key@) == Some(i as int),
                None => key_index(key_views(self.keys@), key@) is None,
            },
    {
        let ghost kv = key_views(self.keys@);
        let mut i: usize = 0;
        while i < self.keys.len()
            invariant
                i <= self.keys@.len(),
                kv == key_views(self.keys@),
                kv.no_duplicates(),
                forall|j: int| 0 <= j < i ==> #[trigger] kv[j] != key@,
            decreases self.keys.len() - i,
        {
            if str_eq(self.keys[i].as_str(), key) {
                proof {
                    lemma_key_index_of_distinct(kv, i as int);
                }
                return Some(i);
            }
            i = i + 1;
        }
        proof {
            lemma_key_index(kv, key@);
            if kv.contains(key@) {
                let j = choose|j: int| 0 <= j < kv.len() && kv[j] == key@;
                assert(kv[j] != key@);
            }
        }
        None
    }

    /// Stores the state of a key, replacing the one it had.
    pub fn put(&mut self, key: String, state: T)
        requires
            old(self).wf(),
        ensures
            final(self).wf(),
            final(self).state_of(key@) == Some(state),
            forall|k: Seq<char>| k != key@ ==> #[trigger] final(self).state_of(k) == old(self).state_of(k),
    {
        let ghost kv = key_views(self.keys@);
        match self.find(key.as_str()) {
            Some(i) => {
                self.states.set(i, state);
                proof {
                    assert(key_views(self.keys@) == kv);
                    lemma_key_index(kv, key@);
                    assert forall|k: Seq<char>| k != key@ implies #[trigger] self.state_of(k) == old(self).state_of(k) by {
                        lemma_key_index(kv, k);
                    }
                }
            },
            None => {
                proof {
                    lemma_key_index(kv, key@);
                }
                let mut p: usize = 0;
                while p < self.keys.len() && label_le(self.keys[p].as_str(), key.as_str())
                    invariant
                        p <= self.keys@.len(),
                        kv == key_views(self.keys@),
                        forall|q: int| 0 <= q < p ==> label_leq(#[trigger] kv[q], key@),
                    decreases self.keys.len() - p,
                {
                    assert(kv[p as int] == self.keys@[p as int]@);
                    p = p + 1;
                }
                proof {
                    if p < kv.len() {
                        assert(kv[p as int] == self.keys@[p as int]@);
                        lemma_leq_total(kv[p as int], key@);
                    }
                    lemma_insert_keeps_order(kv, key@, p as int);
                }
                let ghost old_states = self.states@;
                self.keys.insert(p, key);
                self.states.insert(p, state);
                proof {
                    let nk = key_views(self.keys@);
                    assert(nk =~= kv.insert(p as int, key@));
                    assert(nk.no_duplicates()) by {
                        assert forall|a: int, b: int| 0 <= a < b < nk.len() implies nk[a] != nk[b] by {
                            if a == p {
                                assert(nk[b] == kv[b - 1]);
                                assert(kv.contains(kv[b - 1]));
                            } else if b == p {
                                assert(nk[a] == kv[a]);
                                assert(kv.contains(kv[a]));
                            } else {
                                let a0 = if a < p { a } else { a - 1 };
                                let b0 = if b < p { b } else { b - 1 };
                                assert(nk[a] == kv[a0]);
                                assert(nk[b] == kv[b0]);
                            }
                        }
                    }
                    lemma_key_index_of_distinct(nk, p as int);
                    assert forall|k: Seq<char>| k != key@ implies #[trigger] self.state_of(k) == old(self).state_of(k) by {
                        lemma_key_index(kv, k);
                        lemma_key_index(nk, k);
                        match key_index(kv, k) {
                            Some(j) => {
                                let j2 = if j < p { j } else { j + 1 };
                                assert(nk[j2] == k);
                                lemma_key_index_of_distinct(nk, j2);
                                assert(self.states@[j2] == old_states[j]);
                            },
                            None => {
                                if nk.contains(k) {
                                    let j2 = choose|j2: int| 0 <= j2 < nk.len() && nk[j2] == k;
                                    let j = if j2 < p { j2 } else { j2 - 1 };
                                    assert(kv[j] == k);
                                }
                            },
                        }
                    }
                }
            },
        }
    }
}


/// The CPU state of one host: each counter with its latest rate, and the gauges as last seen.
#[derive(Clone, Copy, Debug, PartialEq, Eq, Structural)]
pub struct CpuPresentation {
    pub timestamp: i64,
    pub idle: CounterRate,
    pub irq: CounterRate,
    pub softirq: CounterRate,
    pub system: CounterRate,
    pub user: CounterRate,
    pub iowait: CounterRate,
    pub nice: CounterRate,
    pub steal: CounterRate,
    pub guest_nice: CounterRate,
    pub guest_user: CounterRate,
    pub schedstat_running: CounterRate,
    pub schedstat_waiting: CounterRate,
    pub context_switches: CounterRate,
    pub interrupts: CounterRate,
    pub load_1: i128,
    pub load_5: i128,
    pub load_15: i128,
    pub procs_running: i128,
    pub procs_blocked: i128,
}

/// The state after observing `d`: seeded with zero rates on first sight,
/// else every counter advanced over the time since the last observation
/// and every gauge copied.
pub open spec fn cpu_next(prev: Option<CpuPresentation>, d: CpuDetails) -> CpuPresentation {
    match prev {
    None => CpuPresentation {
    timestamp: d.timestamp,
    idle: seeded(d.cpu_idle),
    irq: seeded(d.cpu_irq),
    softirq: seeded(d.cpu_softirq),
    system: seeded(d.cpu_system),
    user: seeded(d.cpu_user),
    iowait: seeded(d.cpu_iowait),
    nice: seeded(d.cpu_nice),
    steal: seeded(d.cpu_steal),
    guest_nice: seeded(d.cpu_guest_nice),
    guest_user: seeded(d.cpu_guest_user),
    schedstat_running: seeded(d.schedstat_running),
    schedstat_waiting: seeded(d.schedstat_waiting),
    context_switches: seeded(d.context_switches),
    interrupts: seeded(d.interrupts),
    load_1: d.load_1,
    load_5: d.load_5,
    load_15: d.load_15,
    procs_running: d.procs_running,
    procs_blocked: d.procs_blocked,
},
        Some(p) => {
            let e = d.timestamp - p.timestamp;
            CpuPresentation {
                timestamp: d.timestamp,
                idle: advanced(p.idle, d.cpu_idle, e),
                irq: advanced(p.irq, d.cpu_irq, e),
                softirq: advanced(p.softirq, d.cpu_softirq, e),
                system: advanced(p.system, d.cpu_system, e),
                user: advanced(p.user, d.cpu_user, e),
                iowait: advanced(p.iowait, d.cpu_iowait, e),
                nice: advanced(p.nice, d.cpu_nice, e),
                steal: advanced(p.steal, d.cpu_steal, e),
                guest_nice: advanced(p.guest_nice, d.cpu_guest_nice, e),
                guest_user: advanced(p.guest_user, d.cpu_guest_user, e),
                schedstat_running: advanced(p.schedstat_running, d.schedstat_running, e),
                schedstat_waiting: advanced(p.schedstat_waiting, d.schedstat_waiting, e),
                context_switches: advanced(p.context_switches, d.context_switches, e),
                interrupts: advanced(p.interrupts, d.interrupts, e),
                load_1: d.load_1,
                load_5: d.load_5,
                load_15: d.load_15,
                procs_running: d.procs_running,
                procs_blocked: d.procs_blocked,
            }
        },
    }
}

/// The state of key `k` after the facts of `f`, in order, starting from `init`.
pub open spec fn cpu_replay(init: Option<CpuPresentation>, f: Seq<CpuDetails>, k: Seq<char>) -> Option<CpuPresentation>
    decreases f.len(),
{
    if f.len() == 0 {
        init
    } else {
        let prev = cpu_replay(init, f.drop_last(), k);
        if f.last().hostname_port@ == k {
            Some(cpu_next(prev, f.last()))
        } else {
            prev
        }
    }
}

fn cpu_step(prev: Option<CpuPresentation>, d: &CpuDetails) -> (r: CpuPresentation)
    ensures
        r == cpu_next(prev, *d),
{
    match prev {
        None => CpuPresentation {
            timestamp: d.timestamp,
            idle: CounterRate { counter: d.cpu_idle, rate: Rate::PerSecond(0) },
            irq: CounterRate { counter: d.cpu_irq, rate: Rate::PerSecond(0) },
            softirq: CounterRate { counter: d.cpu_softirq, rate: Rate::PerSecond(0) },
            system: CounterRate { counter: d.cpu_system, rate: Rate::PerSecond(0) },
            user: CounterRate { counter: d.cpu_user, rate: Rate::PerSecond(0) },
            iowait: CounterRate { counter: d.cpu_iowait, rate: Rate::PerSecond(0) },
            nice: CounterRate { counter: d.cpu_nice, rate: Rate::PerSecond(0) },
            steal: CounterRate { counter: d.cpu_steal, rate: Rate::PerSecond(0) },
            guest_nice: CounterRate { counter: d.cpu_guest_nice, rate: Rate::PerSecond(0) },
            guest_user: CounterRate { counter: d.cpu_guest_user, rate: Rate::PerSecond(0) },
            schedstat_running: CounterRate { counter: d.schedstat_running, rate: Rate::PerSecond(0) },
            schedstat_waiting: CounterRate { counter: d.schedstat_waiting, rate: Rate::PerSecond(0) },
            context_switches: CounterRate { counter: d.context_switches, rate: Rate::PerSecond(0) },
            interrupts: CounterRate { counter: d.interrupts, rate: Rate::PerSecond(0) },
            load_1: d.load_1,
            load_5: d.load_5,
            load_15: d.load_15,
            procs_running: d.procs_running,
            procs_blocked: d.procs_blocked,
        },
        Some(p) => {
            let e = elapsed_between(p.timestamp, d.timestamp);
            CpuPresentation {
                timestamp: d.timestamp,
                idle: advance(p.idle, d.cpu_idle, e),
                irq: advance(p.irq, d.cpu_irq, e),
                softirq: advance(p.softirq, d.cpu_softirq, e),
                system: advance(p.system, d.cpu_system, e),
                user: advance(p.user, d.cpu_user, e),
                iowait: advance(p.iowait, d.cpu_iowait, e),
                nice: advance(p.nice, d.cpu_nice, e),
                steal: advance(p.steal, d.cpu_steal, e),
                guest_nice: advance(p.guest_nice, d.cpu_guest_nice, e),
                guest_user: advance(p.guest_user, d.cpu_guest_user, e),
                schedstat_running: advance(p.schedstat_running, d.schedstat_running, e),
                schedstat_waiting: advance(p.schedstat_waiting, d.schedstat_waiting, e),
                context_switches: advance(p.context_switches, d.context_switches, e),
                interrupts: advance(p.interrupts, d.interrupts, e),
                load_1: d.load_1,
                load_5: d.load_5,
                load_15: d.load_15,
                procs_running: d.procs_running,
                procs_blocked: d.procs_blocked,
            }
        },
    }
}

/// Feeds CPU facts, in order, to the per-host states.
pub fn diff_cpu_details(values: Vec<CpuDetails>, host_presentation: &mut Presentations<CpuPresentation>)
    requires
        old(host_presentation).wf(),
    ensures
        final(host_presentation).wf(),
        forall|k: Seq<char>| #[trigger] final(host_presentation).state_of(k) == cpu_replay(old(host_presentation).state_of(k), values@, k),
{
    let mut i: usize = 0;
    assert forall|k: Seq<char>| #[trigger] host_presentation.state_of(k) == cpu_replay(old(host_presentation).state_of(k), values@.subrange(0, 0), k) by {}
    while i < values.len()
        invariant
            i <= values@.len(),
            host_presentation.wf(),
            forall|k: Seq<char>| #[trigger] host_presentation.state_of(k) == cpu_replay(old(host_presentation).state_of(k), values@.subrange(0, i as int), k),
        decreases values.len() - i,
    {
        let d = &values[i];
        let prev = match host_presentation.find(d.hostname_port.as_str()) {
            Some(j) => Some(host_presentation.states[j]),
            None => None,
        };
        assert(prev == host_presentation.state_of(d.hostname_port@));
        let next = cpu_step(prev, d);
        host_presentation.put(d.hostname_port.clone(), next);
        assert(values@.subrange(0, i + 1).drop_last() =~= values@.subrange(0, i as int));
        assert(values@.subrange(0, i + 1).last() == *d);
        i = i + 1;
    }
    assert(values@.subrange(0, values.len() as int) =~= values@);
}

/// The database I/O state of one host: each counter with its latest rate.
#[derive(Clone, Copy, Debug, PartialEq, Eq, Structural)]
pub struct YBIOPresentation {
    pub timestamp: i64,
    pub glog_messages_info: CounterRate,
    pub glog_messages_prio: CounterRate,
    pub log_bytes_logged: CounterRate,
    pub log_reader_bytes_read: CounterRate,
    pub log_sync_latency_count: CounterRate,
    pub log_sync_latency_sum: CounterRate,
    pub log_append_latency_count: CounterRate,
    pub log_append_latency_sum: CounterRate,
    pub log_cache_disk_reads: CounterRate,
    pub rocksdb_flush_write_bytes: CounterRate,
    pub rocksdb_compact_read_bytes: CounterRate,
    pub rocksdb_compact_write_bytes: CounterRate,
    pub rocksdb_write_raw_block_micros_count: CounterRate,
    pub rocksdb_write_raw_block_micros_sum: CounterRate,
    pub rocksdb_sst_read_micros_count: CounterRate,
    pub rocksdb_sst_read_micros_sum: CounterRate,
}

/// The state after observing `d`: seeded with zero rates on first sight,
/// else every counter advanced over the time since the last observation
/// and every gauge copied.
pub open spec fn yugabyte_next(prev: Option<YBIOPresentation>, d: YugabyteIODetails) -> YBIOPresentation {
    match prev {
    None => YBIOPresentation {
    timestamp: d.timestamp,
    glog_messages_info: seeded(d.glog_messages_info),
    glog_messages_prio: seeded(d.glog_messages_prio),
    log_bytes_logged: seeded(d.log_bytes_logged),
    log_reader_bytes_read: seeded(d.log_reader_bytes_read),
    log_sync_latency_count: seeded(d.log_sync_latency_count),
    log_sync_latency_sum: seeded(d.log_sync_latency_sum),
    log_append_latency_count: seeded(d.log_append_latency_count),
    log_append_latency_sum: seeded(d.log_append_latency_sum),
    log_cache_disk_reads: seeded(d.log_cache_disk_reads),
    rocksdb_flush_write_bytes: seeded(d.rocksdb_flush_write_bytes),
    rocksdb_compact_read_bytes: seeded(d.rocksdb_compact_read_bytes),
    rocksdb_compact_write_bytes: seeded(d.rocksdb_compact_write_bytes),
    rocksdb_write_raw_block_micros_count: seeded(d.rocksdb_write_raw_block_micros_count),
    rocksdb_write_raw_block_micros_sum: seeded(d.rocksdb_write_raw_block_micros_sum),
    rocksdb_sst_read_micros_count: seeded(d.rocksdb_sst_read_micros_count),
    rocksdb_sst_read_micros_sum: seeded(d.rocksdb_sst_read_micros_sum),
},
        Some(p) => {
            let e = d.timestamp - p.timestamp;
            YBIOPresentation {
                timestamp: d.timestamp,
                glog_messages_info: advanced(p.glog_messages_info, d.glog_messages_info, e),
                glog_messages_prio: advanced(p.glog_messages_prio, d.glog_messages_prio, e),
                log_bytes_logged: advanced(p.log_bytes_logged, d.log_bytes_logged, e),
                log_reader_bytes_read: advanced(p.log_reader_bytes_read, d.log_reader_bytes_read, e),
                log_sync_latency_count: advanced(p.log_sync_latency_count, d.log_sync_latency_count, e),
                log_sync_latency_sum: advanced(p.log_sync_latency_sum, d.log_sync_latency_sum, e),
                log_append_latency_count: advanced(p.log_append_latency_count, d.log_append_latency_count, e),
                log_append_latency_sum: advanced(p.log_append_latency_sum, d.log_append_latency_sum, e),
                log_cache_disk_reads: advanced(p.log_cache_disk_reads, d.log_cache_disk_reads, e),
                rocksdb_flush_write_bytes: advanced(p.rocksdb_flush_write_bytes, d.rocksdb_flush_write_bytes, e),
                rocksdb_compact_read_bytes: advanced(p.rocksdb_compact_read_bytes, d.rocksdb_compact_read_bytes, e),
                rocksdb_compact_write_bytes: advanced(p.rocksdb_compact_write_bytes, d.rocksdb_compact_write_bytes, e),
                rocksdb_write_raw_block_micros_count: advanced(p.rocksdb_write_raw_block_micros_count, d.rocksdb_write_raw_block_micros_count, e),
                rocksdb_write_raw_block_micros_sum: advanced(p.rocksdb_write_raw_block_micros_sum, d.rocksdb_write_raw_block_micros_sum, e),
                rocksdb_sst_read_micros_count: advanced(p.rocksdb_sst_read_micros_count, d.rocksdb_sst_read_micros_count, e),
                rocksdb_sst_read_micros_sum: advanced(p.rocksdb_sst_read_micros_sum, d.rocksdb_sst_read_micros_sum, e),
            }
        },
    }
}

/// The state of key `k` after the facts of `f`, in order, starting from `init`.
pub open spec fn yugabyte_replay(init: Option<YBIOPresentation>, f: Seq<YugabyteIODetails>, k: Seq<char>) -> Option<YBIOPresentation>
    decreases f.len(),
{
    if f.len() == 0 {
        init
    } else {
        let prev = yugabyte_replay(init, f.drop_last(), k);
        if f.last().hostname_port@ == k {
            Some(yugabyte_next(prev, f.last()))
        } else {
            prev
        }
    }
}

fn yugabyte_step(prev: Option<YBIOPresentation>, d: &YugabyteIODetails) -> (r: YBIOPresentation)
    ensures
        r == yugabyte_next(prev, *d),
{
    match prev {
        None => YBIOPresentation {
            timestamp: d.timestamp,
            glog_messages_info: CounterRate { counter: d.glog_messages_info, rate: Rate::PerSecond(0) },
            glog_messages_prio: CounterRate { counter: d.glog_messages_prio, rate: Rate::PerSecond(0) },
            log_bytes_logged: CounterRate { counter: d.log_bytes_logged, rate: Rate::PerSecond(0) },
            log_reader_bytes_read: CounterRate { counter: d.log_reader_bytes_read, rate: Rate::PerSecond(0) },
            log_sync_latency_count: CounterRate { counter: d.log_sync_latency_count, rate: Rate::PerSecond(0) },
            log_sync_latency_sum: CounterRate { counter: d.log_sync_latency_sum, rate: Rate::PerSecond(0) },
            log_append_latency_count: CounterRate { counter: d.log_append_latency_count, rate: Rate::PerSecond(0) },
            log_append_latency_sum: CounterRate { counter: d.log_append_latency_sum, rate: Rate::PerSecond(0) },
            log_cache_disk_reads: CounterRate { counter: d.log_cache_disk_reads, rate: Rate::PerSecond(0) },
            rocksdb_flush_write_bytes: CounterRate { counter: d.rocksdb_flush_write_bytes, rate: Rate::PerSecond(0) },
            rocksdb_compact_read_bytes: CounterRate { counter: d.rocksdb_compact_read_bytes, rate: Rate::PerSecond(0) },
            rocksdb_compact_write_bytes: CounterRate { counter: d.rocksdb_compact_write_bytes, rate: Rate::PerSecond(0) },
            rocksdb_write_raw_block_micros_count: CounterRate { counter: d.rocksdb_write_raw_block_micros_count, rate: Rate::PerSecond(0) },
            rocksdb_write_raw_block_micros_sum: CounterRate { counter: d.rocksdb_write_raw_block_micros_sum, rate: Rate::PerSecond(0) },
            rocksdb_sst_read_micros_count: CounterRate { counter: d.rocksdb_sst_read_micros_count, rate: Rate::PerSecond(0) },
            rocksdb_sst_read_micros_sum: CounterRate { counter: d.rocksdb_sst_read_micros_sum, rate: Rate::PerSecond(0) },
        },
        Some(p) => {
            let e = elapsed_between(p.timestamp, d.timestamp);
            YBIOPresentation {
                timestamp: d.timestamp,
                glog_messages_info: advance(p.glog_messages_info, d.glog_messages_info, e),
                glog_messages_prio: advance(p.glog_messages_prio, d.glog_messages_prio, e),
                log_bytes_logged: advance(p.log_bytes_logged, d.log_bytes_logged, e),
                log_reader_bytes_read: advance(p.log_reader_bytes_read, d.log_reader_bytes_read, e),
                log_sync_latency_count: advance(p.log_sync_latency_count, d.log_sync_latency_count, e),
                log_sync_latency_sum: advance(p.log_sync_latency_sum, d.log_sync_latency_sum, e),
                log_append_latency_count: advance(p.log_append_latency_count, d.log_append_latency_count, e),
                log_append_latency_sum: advance(p.log_append_latency_sum, d.log_append_latency_sum, e),
                log_cache_disk_reads: advance(p.log_cache_disk_reads, d.log_cache_disk_reads, e),
                rocksdb_flush_write_bytes: advance(p.rocksdb_flush_write_bytes, d.rocksdb_flush_write_bytes, e),
                rocksdb_compact_read_bytes: advance(p.rocksdb_compact_read_bytes, d.rocksdb_compact_read_bytes, e),
                rocksdb_compact_write_bytes: advance(p.rocksdb_compact_write_bytes, d.rocksdb_compact_write_bytes, e),
                rocksdb_write_raw_block_micros_count: advance(p.rocksdb_write_raw_block_micros_count, d.rocksdb_write_raw_block_micros_count, e),
                rocksdb_write_raw_block_micros_sum: advance(p.rocksdb_write_raw_block_micros_sum, d.rocksdb_write_raw_block_micros_sum, e),
                rocksdb_sst_read_micros_count: advance(p.rocksdb_sst_read_micros_count, d.rocksdb_sst_read_micros_count, e),
                rocksdb_sst_read_micros_sum: advance(p.rocksdb_sst_read_micros_sum, d.rocksdb_sst_read_micros_sum, e),
            }
        },
    }
}

/// Feeds database I/O facts, in order, to the per-host states.
pub fn diff_yugabyte_details(values: Vec<YugabyteIODetails>, yugabyte_presentation: &mut Presentations<YBIOPresentation>)
    requires
        old(yugabyte_presentation).wf(),
    ensures
        final(yugabyte_presentation).wf(),
        forall|k: Seq<char>| #[trigger] final(yugabyte_presentation).state_of(k) == yugabyte_replay(old(yugabyte_presentation).state_of(k), values@, k),
{
    let mut i: usize = 0;
    assert forall|k: Seq<char>| #[trigger] yugabyte_presentation.state_of(k) == yugabyte_replay(old(yugabyte_presentation).state_of(k), values@.subrange(0, 0), k) by {}
    while i < values.len()
        invariant
            i <= values@.len(),
            yugabyte_presentation.wf(),
            forall|k: Seq<char>| #[trigger] yugabyte_presentation.state_of(k) == yugabyte_replay(old(yugabyte_presentation).state_of(k), values@.subrange(0, i as int), k),
        decreases values.len() - i,
    {
        let d = &values[i];
        let prev = match yugabyte_presentation.find(d.hostname_port.as_str()) {
            Some(j) => Some(yugabyte_presentation.states[j]),
            None => None,
        };
        assert(prev == yugabyte_presentation.state_of(d.hostname_port@));
        let next = yugabyte_step(prev, d);
        yugabyte_presentation.put(d.hostname_port.clone(), next);
        assert(values@.subrange(0, i + 1).drop_last() =~= values@.subrange(0, i as int));
        assert(values@.subrange(0, i + 1).last() == *d);
        i = i + 1;
    }
    assert(values@.subrange(0, values.len() as int) =~= values@);
}

/// The state of one disk of one host: each counter with its latest rate.
#[derive(Clone, Copy, Debug, PartialEq, Eq, Structural)]
pub struct DiskPresentation {
    pub timestamp: i64,
    pub reads_completed: CounterRate,
    pub writes_completed: CounterRate,
    pub discards_completed: CounterRate,
    pub reads_merged: CounterRate,
    pub writes_merged: CounterRate,
    pub discards_merged: CounterRate,
    pub reads_bytes: CounterRate,
    pub writes_bytes: CounterRate,
    pub discards_sectors: CounterRate,
    pub reads_time: CounterRate,
    pub writes_time: CounterRate,
    pub discards_time: CounterRate,
    pub disk_total_time: CounterRate,
    pub queue: CounterRate,
}

/// The key of a disk: the host identity, a space, the disk name.
pub open spec fn disk_key(host: Seq<char>, disk: Seq<char>) -> Seq<char> {
    host + seq![' '] + disk
}

/// The state after observing disk `d` at `timestamp`: seeded with zero
/// rates on first sight, else every counter advanced.
pub open spec fn disk_next(prev: Option<DiskPresentation>, timestamp: i64, d: DiskDetail) -> DiskPresentation {
    match prev {
    None => DiskPresentation {
    timestamp: timestamp,
    reads_completed: seeded(d.reads_completed),
    writes_completed: seeded(d.writes_completed),
    discards_completed: seeded(d.discards_completed),
    reads_merged: seeded(d.reads_merged),
    writes_merged: seeded(d.writes_merged),
    discards_merged: seeded(d.discards_merged),
    reads_bytes: seeded(d.reads_bytes),
    writes_bytes: seeded(d.writes_bytes),
    discards_sectors: seeded(d.discards_sectors),
    reads_time: seeded(d.reads_time),
    writes_time: seeded(d.writes_time),
    discards_time: seeded(d.discards_time),
    disk_total_time: seeded(d.total_time),
    queue: seeded(d.queue),
},
        Some(p) => {
            let e = timestamp - p.timestamp;
            DiskPresentation {
                timestamp: timestamp,
                reads_completed: advanced(p.reads_completed, d.reads_completed, e),
                writes_completed: advanced(p.writes_completed, d.writes_completed, e),
                discards_completed: advanced(p.discards_completed, d.discards_completed, e),
                reads_merged: advanced(p.reads_merged, d.reads_merged, e),
                writes_merged: advanced(p.writes_merged, d.writes_merged, e),
                discards_merged: advanced(p.discards_merged, d.discards_merged, e),
                reads_bytes: advanced(p.reads_bytes, d.reads_bytes, e),
                writes_bytes: advanced(p.writes_bytes, d.writes_bytes, e),
                discards_sectors: advanced(p.discards_sectors, d.discards_sectors, e),
                reads_time: advanced(p.reads_time, d.reads_time, e),
                writes_time: advanced(p.writes_time, d.writes_time, e),
                discards_time: advanced(p.discards_time, d.discards_time, e),
                disk_total_time: advanced(p.disk_total_time, d.total_time, e),
                queue: advanced(p.queue, d.queue, e),
            }
        },
    }
}

/// The state of key `k` after the disks of one host, in order.
pub open spec fn host_disks_replay(
    init: Option<DiskPresentation>,
    host: Seq<char>,
    timestamp: i64,
    disks: Seq<DiskDetail>,
    k: Seq<char>,
) -> Option<DiskPresentation>
    decreases disks.len(),
{
    if disks.len() == 0 {
        init
    } else {
        let prev = host_disks_replay(init, host, timestamp, disks.drop_last(), k);
        if disk_key(host, disks.last().disk_name@) == k {
            Some(disk_next(prev, timestamp, disks.last()))
        } else {
            prev
        }
    }
}

/// The state of key `k` after the disk facts of `f`, host by host.
pub open spec fn disk_replay(init: Option<DiskPresentation>, f: Seq<DiskHost>, k: Seq<char>) -> Option<DiskPresentation>
    decreases f.len(),
{
    if f.len() == 0 {
        init
    } else {
        host_disks_replay(
            disk_replay(init, f.drop_last(), k),
            f.last().hostname_port@,
            f.last().timestamp,
            f.last().diskdetail@,
            k,
        )
    }
}

fn disk_step(prev: Option<DiskPresentation>, timestamp: i64, d: &DiskDetail) -> (r: DiskPresentation)
    ensures
        r == disk_next(prev, timestamp, *d),
{
    match prev {
        None => DiskPresentation {
            timestamp: timestamp,
            reads_completed: CounterRate { counter: d.reads_completed, rate: Rate::PerSecond(0) },
            writes_completed: CounterRate { counter: d.writes_completed, rate: Rate::PerSecond(0) },
            discards_completed: CounterRate { counter: d.discards_completed, rate: Rate::PerSecond(0) },
            reads_merged: CounterRate { counter: d.reads_merged, rate: Rate::PerSecond(0) },
            writes_merged: CounterRate { counter: d.writes_merged, rate: Rate::PerSecond(0) },
            discards_merged: CounterRate { counter: d.discards_merged, rate: Rate::PerSecond(0) },
            reads_bytes: CounterRate { counter: d.reads_bytes, rate: Rate::PerSecond(0) },
            writes_bytes: CounterRate { counter: d.writes_bytes, rate: Rate::PerSecond(0) },
            discards_sectors: CounterRate { counter: d.discards_sectors, rate: Rate::PerSecond(0) },
            reads_time: CounterRate { counter: d.reads_time, rate: Rate::PerSecond(0) },
            writes_time: CounterRate { counter: d.writes_time, rate: Rate::PerSecond(0) },
            discards_time: CounterRate { counter: d.discards_time, rate: Rate::PerSecond(0) },
            disk_total_time: CounterRate { counter: d.total_time, rate: Rate::PerSecond(0) },
            queue: CounterRate { counter: d.queue, rate: Rate::PerSecond(0) },
        },
        Some(p) => {
            let e = elapsed_between(p.timestamp, timestamp);
            DiskPresentation {
                timestamp: timestamp,
                reads_completed: advance(p.reads_completed, d.reads_completed, e),
                writes_completed: advance(p.writes_completed, d.writes_completed, e),
                discards_completed: advance(p.discards_completed, d.discards_completed, e),
                reads_merged: advance(p.reads_merged, d.reads_merged, e),
                writes_merged: advance(p.writes_merged, d.writes_merged, e),
                discards_merged: advance(p.discards_merged, d.discards_merged, e),
                reads_bytes: advance(p.reads_bytes, d.reads_bytes, e),
                writes_bytes: advance(p.writes_bytes, d.writes_bytes, e),
                discards_sectors: advance(p.discards_sectors, d.discards_sectors, e),
                reads_time: advance(p.reads_time, d.reads_time, e),
                writes_time: advance(p.writes_time, d.writes_time, e),
                discards_time: advance(p.discards_time, d.discards_time, e),
                disk_total_time: advance(p.disk_total_time, d.total_time, e),
                queue: advance(p.queue, d.queue, e),
            }
        },
    }
}

fn make_disk_key(host: &str, disk: &str) -> (r: String)
    ensures
        r@ == disk_key(host@, disk@),
{
    proof {
        reveal_strlit(" ");
    }
    let mut r = String::new();
    r.append(host);
    r.append(" ");
    r.append(disk);
    assert(r@ =~= disk_key(host@, disk@));
    r
}

/// Feeds disk facts, host by host and disk by disk, to the per-disk states
/// keyed by `host disk`.
pub fn diff_disk_details(values: Vec<DiskHost>, disk_presentation: &mut Presentations<DiskPresentation>)
    requires
        old(disk_presentation).wf(),
    ensures
        final(disk_presentation).wf(),
        forall|k: Seq<char>| #[trigger] final(disk_presentation).state_of(k) == disk_replay(old(disk_presentation).state_of(k), values@, k),
{
    let mut i: usize = 0;
    assert forall|k: Seq<char>| #[trigger] disk_presentation.state_of(k) == disk_replay(old(disk_presentation).state_of(k), values@.subrange(0, 0), k) by {}
    while i < values.len()
        invariant
            i <= values@.len(),
            disk_presentation.wf(),
            forall|k: Seq<char>| #[trigger] disk_presentation.state_of(k) == disk_replay(old(disk_presentation).state_of(k), values@.subrange(0, i as int), k),
        decreases values.len() - i,
    {
        let h = &values[i];
        let ghost before = values@.subrange(0, i as int);
        let mut j: usize = 0;
        assert(h.diskdetail@.subrange(0, 0) =~= Seq::<DiskDetail>::empty());
        while j < h.diskdetail.len()
            invariant
                i < values@.len(),
                h == values@[i as int],
                before == values@.subrange(0, i as int),
                j <= h.diskdetail@.len(),
                disk_presentation.wf(),
                forall|k: Seq<char>| #[trigger] disk_presentation.state_of(k) == host_disks_replay(
                    disk_replay(old(disk_presentation).state_of(k), before, k),
                    h.hostname_port@,
                    h.timestamp,
                    h.diskdetail@.subrange(0, j as int),
                    k,
                ),
            decreases h.diskdetail.len() - j,
        {
            let d = &h.diskdetail[j];
            let key = make_disk_key(h.hostname_port.as_str(), d.disk_name.as_str());
            let prev = match disk_presentation.find(key.as_str()) {
                Some(x) => Some(disk_presentation.states[x]),
                None => None,
            };
            assert(prev == disk_presentation.state_of(key@));
            let next = disk_step(prev, h.timestamp, d);
            disk_presentation.put(key, next);
            assert(h.diskdetail@.subrange(0, j + 1).drop_last() =~= h.diskdetail@.subrange(0, j as int));
            assert(h.diskdetail@.subrange(0, j + 1).last() == *d);
            j = j + 1;
        }
        assert(h.diskdetail@.subrange(0, h.diskdetail.len() as int) =~= h.diskdetail@);
        assert(values@.subrange(0, i + 1).drop_last() =~= before);
        assert(values@.subrange(0, i + 1).last() == *h);
        i = i + 1;
    }
    assert(values@.subrange(0, values.len() as int) =~= values@);
}
/// The counters of a CPU state, in declaration order.
pub open spec fn cpu_counters(p: CpuPresentation) -> Seq<CounterRate> {
    seq![p.idle, p.irq, p.softirq, p.system, p.user, p.iowait, p.nice, p.steal, p.guest_nice,
        p.guest_user, p.schedstat_running, p.schedstat_waiting, p.context_switches, p.interrupts]
}

/// The counter values of a CPU fact, in the order of `cpu_counters`.
pub open spec fn cpu_counter_values(d: CpuDetails) -> Seq<i128> {
    seq![d.cpu_idle, d.cpu_irq, d.cpu_softirq, d.cpu_system, d.cpu_user, d.cpu_iowait, d.cpu_nice,
        d.cpu_steal, d.cpu_guest_nice, d.cpu_guest_user, d.schedstat_running, d.schedstat_waiting,
        d.context_switches, d.interrupts]
}

/// Cold start of a host's CPU state: the first fact for a key gives a state
/// with every rate zero, every counter equal to the fact's value, and the
/// fact's gauges and timestamp.
pub proof fn lemma_cpu_cold_start(d: CpuDetails)
    ensures
        forall|j: int| 0 <= j < 14 ==> (#[trigger] cpu_counters(cpu_next(None, d))[j]).rate == Rate::PerSecond(0)
            && cpu_counters(cpu_next(None, d))[j].counter == cpu_counter_values(d)[j],
        cpu_next(None, d).timestamp == d.timestamp,
        cpu_next(None, d).load_1 == d.load_1,
        cpu_next(None, d).load_5 == d.load_5,
        cpu_next(None, d).load_15 == d.load_15,
        cpu_next(None, d).procs_running == d.procs_running,
        cpu_next(None, d).procs_blocked == d.procs_blocked,
{
}

/// The counters of a disk state, in declaration order.
pub open spec fn disk_counters(p: DiskPresentation) -> Seq<CounterRate> {
    seq![p.reads_completed, p.writes_completed, p.discards_completed, p.reads_merged, p.writes_merged,
        p.discards_merged, p.reads_bytes, p.writes_bytes, p.discards_sectors, p.reads_time,
        p.writes_time, p.discards_time, p.disk_total_time, p.queue]
}

/// Cold start of a disk's state: every rate zero, every counter equal to
/// the fact's value, in the order of the fact's fields.
pub proof fn lemma_disk_cold_start(timestamp: i64, d: DiskDetail)
    ensures
        forall|j: int| 0 <= j < 14 ==> (#[trigger] disk_counters(disk_next(None, timestamp, d))[j]).rate == Rate::PerSecond(0)
            && disk_counters(disk_next(None, timestamp, d))[j].counter as int == d.fields()[j],
        disk_next(None, timestamp, d).timestamp == timestamp,
{
}

/// The counters of a database I/O state, in declaration order.
pub open spec fn yugabyte_counters(p: YBIOPresentation) -> Seq<CounterRate> {
    seq![p.glog_messages_info, p.glog_messages_prio, p.log_bytes_logged, p.log_reader_bytes_read,
        p.log_sync_latency_count, p.log_sync_latency_sum, p.log_append_latency_count,
        p.log_append_latency_sum, p.log_cache_disk_reads, p.rocksdb_flush_write_bytes,
        p.rocksdb_compact_read_bytes, p.rocksdb_compact_write_bytes, p.rocksdb_write_raw_block_micros_count,
        p.rocksdb_write_raw_block_micros_sum, p.rocksdb_sst_read_micros_count, p.rocksdb_sst_read_micros_sum]
}

/// Cold start of a host's database I/O state: every rate zero, every
/// counter equal to the fact's value, in the order of the fact's fields.
pub proof fn lemma_yugabyte_cold_start(d: YugabyteIODetails)
    ensures
        forall|j: int| 0 <= j < 16 ==> (#[trigger] yugabyte_counters(yugabyte_next(None, d))[j]).rate == Rate::PerSecond(0)
            && yugabyte_counters(yugabyte_next(None, d))[j].counter as int == d.fields()[j],
        yugabyte_next(None, d).timestamp == d.timestamp,
{
}

/// Steady state: a tracked counter moves to the new value, its rate is the
/// change over the elapsed time (in thousandths per second, truncated toward
/// zero), and the state takes the new timestamp.
pub proof fn lemma_cpu_steady_state(p: CpuPresentation, d: CpuDetails)
    requires
        d.timestamp > p.timestamp,
        fits_i128((d.cpu_idle - p.idle.counter) * 1000),
    ensures
        cpu_next(Some(p), d).idle.counter == d.cpu_idle,
        cpu_next(Some(p), d).idle.rate == Rate::PerSecond(
            trunc_div((d.cpu_idle - p.idle.counter) * 1000, d.timestamp - p.timestamp) as i128,
        ),
        cpu_next(Some(p), d).timestamp == d.timestamp,
{
}

} // verus!
