//! Reclassification of one host's raw samples: demotion of samples that are
//! internal to the exporter or folded into an aggregate, and synthesis of
//! named summary samples from a fixed table of metric families.
use vstd::prelude::*;
use crate::sample::{
    copy_sample, fits_wire, raw_of_wires, read_samples, sample_views, Category, Kind,
    NodeExporterValues, SampleView, WireSample,
};
use crate::text::{contains_str, has_prefix, has_substring, starts_with_str, str_eq};

verus! {

/// One synthesized summary: its name and label fingerprint, and the samples
/// it adds up: those named in `sources` whose fingerprint contains `needle`.
pub struct SummaryRule {
    pub name: Seq<char>,
    pub labels: Seq<char>,
    pub sources: Seq<Seq<char>>,
    pub needle: Seq<char>,
}

/// A metric family: present when a sample named `trigger` exists; then the
/// samples named in `members` become detail samples and each rule may add a
/// summary.
pub struct Family {
    pub trigger: Seq<char>,
    pub members: Seq<Seq<char>>,
    pub rules: Seq<SummaryRule>,
}

/// Executable form of a `SummaryRule`.
pub struct ExecRule {
    pub name: &'static str,
    pub labels: &'static str,
    pub sources: Vec<&'static str>,
    pub needle: &'static str,
}

/// Executable form of a `Family`.
pub struct ExecFamily {
    pub trigger: &'static str,
    pub members: Vec<&'static str>,
    pub rules: Vec<ExecRule>,
}

/// The views of a sequence of string slices.
pub open spec fn str_views(v: Seq<&'static str>) -> Seq<Seq<char>> {
    v.map_values(|s: &'static str| s@)
}

impl View for ExecRule {
    type V = SummaryRule;

    open spec fn view(&self) -> SummaryRule {
        SummaryRule {
            name: self.name@,
            labels: self.labels@,
            sources: str_views(self.sources@),
            needle: self.needle@,
        }
    }
}

impl View for ExecFamily {
    type V = Family;

    open spec fn view(&self) -> Family {
        Family {
            trigger: self.trigger@,
            members: str_views(self.members@),
            rules: self.rules@.map_values(|r: ExecRule| r@),
        }
    }
}

/// A family whose one metric is summed, unlabelled, under its own name.
pub open spec fn single_family(name: Seq<char>) -> Family {
    Family {
        trigger: name,
        members: seq![name],
        rules: seq![SummaryRule { name: name, labels: Seq::empty(), sources: seq![name], needle: Seq::empty() }],
    }
}

/// A family of a `_count` and a `_sum` metric, each summed under its own name.
pub open spec fn paired_family(count: Seq<char>, sum: Seq<char>) -> Family {
    Family {
        trigger: count,
        members: seq![count, sum],
        rules: seq![
            SummaryRule { name: count, labels: Seq::empty(), sources: seq![count], needle: Seq::empty() },
            SummaryRule { name: sum, labels: Seq::empty(), sources: seq![sum], needle: Seq::empty() },
        ],
    }
}

/// A sub-bucket of a labelled family: its samples whose fingerprint
/// contains `needle`, summed under the family's name with fingerprint `labels`.
pub open spec fn bucket_rule(name: Seq<char>, labels: Seq<char>, needle: Seq<char>) -> SummaryRule {
    SummaryRule { name: name, labels: labels, sources: seq![name], needle: needle }
}

/// The table of metric families, in the order in which their summaries are
/// appended.
pub open spec fn family_table() -> Seq<Family> {
    let cpu = "node_cpu_seconds_total"@;
    let guest = "node_cpu_guest_seconds_total"@;
    seq![
        Family {
            trigger: "glog_info_messages"@,
            members: seq!["glog_info_messages"@, "glog_warning_messages"@, "glog_error_messages"@],
            rules: seq![
                SummaryRule { name: "glog_messages_info"@, labels: Seq::empty(), sources: seq!["glog_info_messages"@], needle: Seq::empty() },
                SummaryRule { name: "glog_messages_prio"@, labels: Seq::empty(), sources: seq!["glog_warning_messages"@, "glog_error_messages"@], needle: Seq::empty() },
            ],
        },
        single_family("log_bytes_logged"@),
        single_family("log_reader_bytes_read"@),
        single_family("log_cache_disk_reads"@),
        paired_family("log_sync_latency_count"@, "log_sync_latency_sum"@),
        paired_family("log_append_latency_count"@, "log_append_latency_sum"@),
        single_family("rocksdb_flush_write_bytes"@),
        single_family("rocksdb_compact_read_bytes"@),
        single_family("rocksdb_compact_write_bytes"@),
        paired_family("rocksdb_write_raw_block_micros_count"@, "rocksdb_write_raw_block_micros_sum"@),
        paired_family("rocksdb_sst_read_micros_count"@, "rocksdb_sst_read_micros_sum"@),
        single_family("node_softnet_processed_total"@),
        single_family("node_softnet_dropped_total"@),
        single_family("node_softnet_times_squeezed_total"@),
        single_family("node_schedstat_waiting_seconds_total"@),
        single_family("node_schedstat_timeslices_total"@),
        single_family("node_schedstat_running_seconds_total"@),
        Family {
            trigger: guest,
            members: seq![guest],
            rules: seq![
                bucket_rule(guest, "_user"@, "user"@),
                bucket_rule(guest, "_nice"@, "nice"@),
            ],
        },
        Family {
            trigger: cpu,
            members: seq![cpu],
            rules: seq![
                bucket_rule(cpu, "_idle"@, "idle"@),
                bucket_rule(cpu, "_irq"@, "_irq"@),
                bucket_rule(cpu, "_softirq"@, "_softirq"@),
                bucket_rule(cpu, "_system"@, "system"@),
                bucket_rule(cpu, "_user"@, "user"@),
                bucket_rule(cpu, "_iowait"@, "iowait"@),
                bucket_rule(cpu, "_nice"@, "nice"@),
                bucket_rule(cpu, "_steal"@, "steal"@),
            ],
        },
    ]
}

/// Name prefixes of the exporter's own process, runtime, HTTP server and
/// scraper metrics.
pub open spec fn internal_prefixes() -> Seq<Seq<char>> {
    seq!["process_"@, "go_"@, "promhttp_"@, "node_scrape_"@]
}

/// The device-mapper marker in a label fingerprint.
pub open spec fn device_mapper_marker() -> Seq<char> {
    "dm-"@
}

/// A sample that describes the exporter itself, or a device-mapper device.
pub open spec fn is_internal(r: SampleView) -> bool {
    (exists|k: int| 0 <= k < internal_prefixes().len() && has_prefix(r.name, #[trigger] internal_prefixes()[k]))
        || has_substring(r.labels, device_mapper_marker())
}

/// Some sample of `s` is named `name`.
pub open spec fn present(s: Seq<SampleView>, name: Seq<char>) -> bool {
    exists|i: int| 0 <= i < s.len() && #[trigger] s[i].name == name
}

/// The sample is demoted to `Detail`.
pub open spec fn demoted(s: Seq<SampleView>, table: Seq<Family>, r: SampleView) -> bool {
    is_internal(r) || exists|f: int|
        0 <= f < table.len() && present(s, #[trigger] table[f].trigger) && table[f].members.contains(r.name)
}

/// The input samples, each with its category after demotion.
pub open spec fn relabelled(s: Seq<SampleView>, table: Seq<Family>) -> Seq<SampleView> {
    s.map_values(
        |r: SampleView|
            if demoted(s, table, r) {
                SampleView { category: Category::Detail, ..r }
            } else {
                r
            },
    )
}

/// The sample is one that the rule adds up.
pub open spec fn rule_matches(r: SampleView, rule: SummaryRule) -> bool {
    rule.sources.contains(r.name) && has_substring(r.labels, rule.needle)
}

/// Sum of the values of the samples that the rule adds up.
pub open spec fn match_sum(s: Seq<SampleView>, rule: SummaryRule) -> int
    decreases s.len(),
{
    if s.len() == 0 {
        0
    } else {
        match_sum(s.drop_last(), rule) + if rule_matches(s.last(), rule) {
            s.last().value
        } else {
            0
        }
    }
}

/// Number of samples that the rule adds up.
pub open spec fn match_count(s: Seq<SampleView>, rule: SummaryRule) -> nat
    decreases s.len(),
{
    if s.len() == 0 {
        0
    } else {
        match_count(s.drop_last(), rule) + if rule_matches(s.last(), rule) {
            1nat
        } else {
            0nat
        }
    }
}

/// Earliest timestamp among the samples that the rule adds up; `None` when
/// it adds up none.
pub open spec fn match_min_timestamp(s: Seq<SampleView>, rule: SummaryRule) -> Option<int>
    decreases s.len(),
{
    if s.len() == 0 {
        None
    } else {
        let prev = match_min_timestamp(s.drop_last(), rule);
        if rule_matches(s.last(), rule) {
            match prev {
                None => Some(s.last().timestamp),
                Some(t) => Some(if s.last().timestamp < t { s.last().timestamp } else { t }),
            }
        } else {
            prev
        }
    }
}

/// The summary sample of a rule, over the samples it adds up.
pub open spec fn summary_of(s: Seq<SampleView>, rule: SummaryRule) -> SampleView {
    SampleView {
        name: rule.name,
        kind: Kind::Counter,
        labels: rule.labels,
        category: Category::Summary,
        value: match_sum(s, rule),
        timestamp: match_min_timestamp(s, rule).unwrap(),
    }
}

/// The summaries of a list of rules: one for each rule that adds up at least
/// one sample, in rule order.
pub open spec fn rules_summaries(s: Seq<SampleView>, rules: Seq<SummaryRule>) -> Seq<SampleView>
    decreases rules.len(),
{
    if rules.len() == 0 {
        Seq::empty()
    } else {
        let prev = rules_summaries(s, rules.drop_last());
        if match_count(s, rules.last()) > 0 {
            prev.push(summary_of(s, rules.last()))
        } else {
            prev
        }
    }
}

/// The summaries of one family: none unless the family is present.
pub open spec fn family_summaries(s: Seq<SampleView>, fam: Family) -> Seq<SampleView> {
    if present(s, fam.trigger) {
        rules_summaries(s, fam.rules)
    } else {
        Seq::empty()
    }
}

/// The summaries of all families of a table, family after family.
pub open spec fn table_summaries(s: Seq<SampleView>, table: Seq<Family>) -> Seq<SampleView>
    decreases table.len(),
{
    if table.len() == 0 {
        Seq::empty()
    } else {
        table_summaries(s, table.drop_last()) + family_summaries(s, table.last())
    }
}

/// The classified samples: the input samples, relabelled, followed by the
/// synthesized summaries.
pub open spec fn classified(s: Seq<SampleView>, table: Seq<Family>) -> Seq<SampleView> {
    relabelled(s, table) + table_summaries(s, table)
}

/// Every value fits in the range that a wire sample can carry.
pub open spec fn wire_values(s: Seq<SampleView>) -> bool {
    forall|i: int| 0 <= i < s.len() ==> fits_wire(#[trigger] s[i].value)
}

fn single(name: &'static str) -> (f: ExecFamily)
    ensures
        f@ == single_family(name@),
{
    proof {
        reveal_strlit("");
        assert(""@ =~= Seq::<char>::empty());
    }
    let f = ExecFamily {
        trigger: name,
        members: vec![name],
        rules: vec![ExecRule { name: name, labels: "", sources: vec![name], needle: "" }],
    };
    assert(f@.members =~= seq![name@]);
    assert(f@.rules[0].sources =~= seq![name@]);
    assert(f@.rules =~= single_family(name@).rules);
    f
}

fn paired(count: &'static str, sum: &'static str) -> (f: ExecFamily)
    ensures
        f@ == paired_family(count@, sum@),
{
    proof {
        reveal_strlit("");
        assert(""@ =~= Seq::<char>::empty());
    }
    let f = ExecFamily {
        trigger: count,
        members: vec![count, sum],
        rules: vec![
            ExecRule { name: count, labels: "", sources: vec![count], needle: "" },
            ExecRule { name: sum, labels: "", sources: vec![sum], needle: "" },
        ],
    };
    assert(f@.members =~= seq![count@, sum@]);
    assert(f@.rules[0].sources =~= seq![count@]);
    assert(f@.rules[1].sources =~= seq![sum@]);
    assert(f@.rules =~= paired_family(count@, sum@).rules);
    f
}

fn bucket(name: &'static str, labels: &'static str, needle: &'static str) -> (r: ExecRule)
    ensures
        r@ == bucket_rule(name@, labels@, needle@),
{
    let r = ExecRule { name: name, labels: labels, sources: vec![name], needle: needle };
    assert(r@.sources =~= seq![name@]);
    r
}

fn glog_family() -> (f: ExecFamily)
    ensures
        f@ == family_table()[0],
{
    proof {
        reveal_strlit("");
        assert(""@ =~= Seq::<char>::empty());
    }
    let f = ExecFamily {
        trigger: "glog_info_messages",
        members: vec!["glog_info_messages", "glog_warning_messages", "glog_error_messages"],
        rules: vec![
            ExecRule { name: "glog_messages_info", labels: "", sources: vec!["glog_info_messages"], needle: "" },
            ExecRule {
                name: "glog_messages_prio",
                labels: "",
                sources: vec!["glog_warning_messages", "glog_error_messages"],
                needle: "",
            },
        ],
    };
    assert(f@.members =~= seq!["glog_info_messages"@, "glog_warning_messages"@, "glog_error_messages"@]);
    assert(f@.rules[0].sources =~= seq!["glog_info_messages"@]);
    assert(f@.rules[1].sources =~= seq!["glog_warning_messages"@, "glog_error_messages"@]);
    assert(f@.rules =~= family_table()[0].rules);
    f
}

fn guest_family() -> (f: ExecFamily)
    ensures
        f@ == family_table()[17],
{
    let g = "node_cpu_guest_seconds_total";
    let f = ExecFamily {
        trigger: g,
        members: vec![g],
        rules: vec![bucket(g, "_user", "user"), bucket(g, "_nice", "nice")],
    };
    assert(f@.members =~= seq![g@]);
    assert(f@.rules =~= family_table()[17].rules);
    f
}

fn cpu_family() -> (f: ExecFamily)
    ensures
        f@ == family_table()[18],
{
    let c = "node_cpu_seconds_total";
    let f = ExecFamily {
        trigger: c,
        members: vec![c],
        rules: vec![
            bucket(c, "_idle", "idle"),
            bucket(c, "_irq", "_irq"),
            bucket(c, "_softirq", "_softirq"),
            bucket(c, "_system", "system"),
            bucket(c, "_user", "user"),
            bucket(c, "_iowait", "iowait"),
            bucket(c, "_nice", "nice"),
            bucket(c, "_steal", "steal"),
        ],
    };
    assert(f@.members =~= seq![c@]);
    assert(f@.rules =~= family_table()[18].rules);
    f
}

/// The table of metric families, as data.
pub fn families() -> (t: Vec<ExecFamily>)
    ensures
        t@.map_values(|f: ExecFamily| f@) == family_table(),
{
    let t = vec![
        glog_family(),
        single("log_bytes_logged"),
        single("log_reader_bytes_read"),
        single("log_cache_disk_reads"),
        paired("log_sync_latency_count", "log_sync_latency_sum"),
        paired("log_append_latency_count", "log_append_latency_sum"),
        single("rocksdb_flush_write_bytes"),
        single("rocksdb_compact_read_bytes"),
        single("rocksdb_compact_write_bytes"),
        paired("rocksdb_write_raw_block_micros_count", "rocksdb_write_raw_block_micros_sum"),
        paired("rocksdb_sst_read_micros_count", "rocksdb_sst_read_micros_sum"),
        single("node_softnet_processed_total"),
        single("node_softnet_dropped_total"),
        single("node_softnet_times_squeezed_total"),
        single("node_schedstat_waiting_seconds_total"),
        single("node_schedstat_timeslices_total"),
        single("node_schedstat_running_seconds_total"),
        guest_family(),
        cpu_family(),
    ];
    assert(t@.map_values(|f: ExecFamily| f@) =~= family_table());
    t
}

/// Whether some sample of `s` is named `name`.
fn is_present(s: &Vec<NodeExporterValues>, name: &str) -> (r: bool)
    ensures
        r == present(sample_views(s@), name@),
{
    let ghost sv = sample_views(s@);
    let mut i: usize = 0;
    while i < s.len()
        invariant
            i <= s.len(),
            sv == sample_views(s@),
            forall|j: int| 0 <= j < i ==> #[trigger] sv[j].name != name@,
        decreases s.len() - i,
    {
        if str_eq(s[i].node_exporter_name.as_str(), name) {
            assert(sv[i as int].name == name@);
            return true;
        }
        i = i + 1;
    }
    false
}

/// Whether `name` is one of `names`.
fn names_contain(names: &Vec<&'static str>, name: &str) -> (r: bool)
    ensures
        r == str_views(names@).contains(name@),
{
    let ghost nv = str_views(names@);
    let mut i: usize = 0;
    while i < names.len()
        invariant
            i <= names.len(),
            nv == str_views(names@),
            forall|j: int| 0 <= j < i ==> #[trigger] nv[j] != name@,
        decreases names.len() - i,
    {
        if str_eq(names[i], name) {
            assert(nv[i as int] == name@);
            return true;
        }
        i = i + 1;
    }
    false
}

/// Whether the sample describes the exporter itself or a device-mapper device.
fn internal_sample(r: &NodeExporterValues) -> (b: bool)
    ensures
        b == is_internal(r@),
{
    let prefixes: Vec<&'static str> = vec!["process_", "go_", "promhttp_", "node_scrape_"];
    assert(str_views(prefixes@) =~= internal_prefixes());
    let name = r.node_exporter_name.as_str();
    let mut k: usize = 0;
    while k < prefixes.len()
        invariant
            k <= prefixes.len(),
            str_views(prefixes@) == internal_prefixes(),
            name@ == r@.name,
            forall|j: int| 0 <= j < k ==> !has_prefix(r@.name, #[trigger] internal_prefixes()[j]),
        decreases prefixes.len() - k,
    {
        if starts_with_str(name, prefixes[k]) {
            assert(prefixes@[k as int]@ == internal_prefixes()[k as int]);
            return true;
        }
        assert(prefixes@[k as int]@ == internal_prefixes()[k as int]);
        k = k + 1;
    }
    contains_str(r.node_exporter_labels.as_str(), "dm-")
}

/// Whether the rule adds up the sample.
fn matches_rule(r: &NodeExporterValues, rule: &ExecRule) -> (b: bool)
    ensures
        b == rule_matches(r@, rule@),
{
    names_contain(&rule.sources, r.node_exporter_name.as_str()) && contains_str(
        r.node_exporter_labels.as_str(),
        rule.needle,
    )
}

proof fn lemma_match_count_bounded(s: Seq<SampleView>, rule: SummaryRule)
    ensures
        match_count(s, rule) <= s.len(),
        match_count(s, rule) == 0 <==> match_min_timestamp(s, rule) is None,
    decreases s.len(),
{
    if s.len() > 0 {
        lemma_match_count_bounded(s.drop_last(), rule);
    }
}

/// The sum of the values and the earliest timestamp of the samples that the
/// rule adds up, or `None` when it adds up none.
fn total_of_rule(s: &Vec<NodeExporterValues>, rule: &ExecRule) -> (r: Option<(i128, i64)>)
    requires
        wire_values(sample_views(s@)),
    ensures
        match r {
            Some((sum, ts)) => match_count(sample_views(s@), rule@) > 0 && sum == match_sum(
                sample_views(s@),
                rule@,
            ) && match_min_timestamp(sample_views(s@), rule@) == Some(ts as int),
            None => match_count(sample_views(s@), rule@) == 0,
        },
{
    let ghost sv = sample_views(s@);
    let ghost bound: int = 0x8000_0000_0000_0000;
    let mut sum: i128 = 0;
    let mut earliest: Option<i64> = None;
    let mut i: usize = 0;
    assert(sv.subrange(0, 0) =~= Seq::<SampleView>::empty());
    while i < s.len()
        invariant
            i <= s.len(),
            sv == sample_views(s@),
            wire_values(sv),
            bound == 0x8000_0000_0000_0000,
            sum == match_sum(sv.subrange(0, i as int), rule@),
            match_count(sv.subrange(0, i as int), rule@) <= i,
            -(match_count(sv.subrange(0, i as int), rule@) * bound) <= sum <= match_count(
                sv.subrange(0, i as int),
                rule@,
            ) * bound,
            match earliest {
                Some(t) => match_min_timestamp(sv.subrange(0, i as int), rule@) == Some(t as int),
                None => match_min_timestamp(sv.subrange(0, i as int), rule@) is None,
            },
        decreases s.len() - i,
    {
        let ghost prefix = sv.subrange(0, i as int);
        let ghost next = sv.subrange(0, i + 1);
        assert(next.drop_last() =~= prefix);
        assert(next.last() == s@[i as int]@);
        if matches_rule(&s[i], rule) {
            let v = s[i].node_exporter_value;
            let ghost c = match_count(prefix, rule@);
            assert(fits_wire(sv[i as int].value));
            assert(c * bound + bound <= 0xffff_ffff_ffff_ffff * bound) by (nonlinear_arith)
                requires
                    c <= i,
                    i < 0xffff_ffff_ffff_ffff,
                    bound == 0x8000_0000_0000_0000,
            ;
            assert((c + 1) * bound == c * bound + bound) by (nonlinear_arith);
            sum = sum + v;
            let t = s[i].node_exporter_timestamp;
            earliest = match earliest {
                None => Some(t),
                Some(e) => Some(if t < e { t } else { e }),
            };
        }
        i = i + 1;
    }
    assert(sv.subrange(0, s.len() as int) =~= sv);
    proof {
        lemma_match_count_bounded(sv, rule@);
    }
    match earliest {
        Some(t) => Some((sum, t)),
        None => None,
    }
}

/// The input samples with their categories after demotion.
fn relabel(s: &Vec<NodeExporterValues>, table: &Vec<ExecFamily>) -> (r: Vec<NodeExporterValues>)
    ensures
        sample_views(r@) == relabelled(sample_views(s@), table@.map_values(|f: ExecFamily| f@)),
{
    let ghost sv = sample_views(s@);
    let ghost tv = table@.map_values(|f: ExecFamily| f@);
    let mut live: Vec<bool> = Vec::new();
    let mut f: usize = 0;
    while f < table.len()
        invariant
            f <= table.len(),
            tv == table@.map_values(|f: ExecFamily| f@),
            sv == sample_views(s@),
            live@.len() == f,
            forall|g: int| 0 <= g < f ==> live@[g] == present(sv, #[trigger] tv[g].trigger),
        decreases table.len() - f,
    {
        live.push(is_present(s, table[f].trigger));
        f = f + 1;
    }
    let mut out: Vec<NodeExporterValues> = Vec::new();
    let mut i: usize = 0;
    while i < s.len()
        invariant
            i <= s.len(),
            tv == table@.map_values(|f: ExecFamily| f@),
            sv == sample_views(s@),
            live@.len() == table.len(),
            forall|g: int| 0 <= g < table.len() ==> live@[g] == present(sv, #[trigger] tv[g].trigger),
            sample_views(out@) == relabelled(sv, tv).subrange(0, i as int),
        decreases s.len() - i,
    {
        let ghost r = s@[i as int]@;
        let mut demote = internal_sample(&s[i]);
        let mut g: usize = 0;
        while g < table.len() && !demote
            invariant
                i < s.len(),
                r == s@[i as int]@,
                g <= table.len(),
                tv == table@.map_values(|f: ExecFamily| f@),
                live@.len() == table.len(),
                forall|h: int| 0 <= h < table.len() ==> live@[h] == present(sv, #[trigger] tv[h].trigger),
                demote ==> demoted(sv, tv, r),
                !demote ==> !is_internal(r),
                !demote ==> forall|h: int|
                    0 <= h < g ==> !(present(sv, #[trigger] tv[h].trigger) && tv[h].members.contains(r.name)),
            decreases table.len() - g,
        {
            if live[g] && names_contain(&table[g].members, s[i].node_exporter_name.as_str()) {
                assert(tv[g as int].members == str_views(table@[g as int].members@));
                assert(present(sv, tv[g as int].trigger) && tv[g as int].members.contains(r.name));
                demote = true;
            }
            g = g + 1;
        }
        assert(demote == demoted(sv, tv, r));
        let mut c = copy_sample(&s[i]);
        if demote {
            c.node_exporter_category = Category::Detail;
        }
        let ghost prev = out@;
        out.push(c);
        assert(sample_views(out@) =~= relabelled(sv, tv).subrange(0, i + 1)) by {
            assert(sample_views(out@) =~= sample_views(prev).push(c@));
        }
        i = i + 1;
    }
    assert(relabelled(sv, tv).subrange(0, s.len() as int) =~= relabelled(sv, tv));
    out
}

/// Appends the summaries of one family to `out`.
fn push_family_summaries(s: &Vec<NodeExporterValues>, fam: &ExecFamily, out: &mut Vec<NodeExporterValues>)
    requires
        wire_values(sample_views(s@)),
    ensures
        sample_views(final(out)@) == sample_views(old(out)@) + family_summaries(sample_views(s@), fam@),
{
    let ghost sv = sample_views(s@);
    let ghost start = sample_views(out@);
    let ghost rv = fam@.rules;
    if !is_present(s, fam.trigger) {
        assert(sample_views(out@) =~= start + family_summaries(sv, fam@));
        return;
    }
    let mut k: usize = 0;
    assert(rv.subrange(0, 0) =~= Seq::<SummaryRule>::empty());
    assert(sample_views(out@) =~= start + rules_summaries(sv, rv.subrange(0, 0)));
    while k < fam.rules.len()
        invariant
            k <= fam.rules.len(),
            sv == sample_views(s@),
            wire_values(sv),
            rv == fam@.rules,
            rv.len() == fam.rules.len(),
            sample_views(out@) == start + rules_summaries(sv, rv.subrange(0, k as int)),
        decreases fam.rules.len() - k,
    {
        let rule = &fam.rules[k];
        assert(rv[k as int] == rule@);
        assert(rv.subrange(0, k + 1).drop_last() =~= rv.subrange(0, k as int));
        assert(rv.subrange(0, k + 1).last() == rule@);
        let ghost prev = out@;
        match total_of_rule(s, rule) {
            Some((sum, ts)) => {
                out.push(
                    NodeExporterValues {
                        node_exporter_name: rule.name.to_owned(),
                        node_exporter_type: Kind::Counter,
                        node_exporter_labels: rule.labels.to_owned(),
                        node_exporter_category: Category::Summary,
                        node_exporter_value: sum,
                        node_exporter_timestamp: ts,
                    },
                );
                assert(sample_views(out@) =~= sample_views(prev).push(summary_of(sv, rule@)));
            },
            None => {},
        }
        k = k + 1;
    }
    assert(rv.subrange(0, fam.rules.len() as int) =~= rv);
}

/// Classifies one host's samples against a table of families: the samples
/// come back in their order, each demoted to `Detail` where the table or the
/// internal-metric rule says so, followed by the synthesized summaries.
pub fn classify_with(s: &Vec<NodeExporterValues>, table: &Vec<ExecFamily>) -> (r: Vec<NodeExporterValues>)
    requires
        wire_values(sample_views(s@)),
    ensures
        sample_views(r@) == classified(sample_views(s@), table@.map_values(|f: ExecFamily| f@)),
{
    let ghost sv = sample_views(s@);
    let ghost tv = table@.map_values(|f: ExecFamily| f@);
    let mut out = relabel(s, table);
    let mut f: usize = 0;
    assert(tv.subrange(0, 0) =~= Seq::<Family>::empty());
    assert(sample_views(out@) =~= relabelled(sv, tv) + table_summaries(sv, tv.subrange(0, 0)));
    while f < table.len()
        invariant
            f <= table.len(),
            sv == sample_views(s@),
            wire_values(sv),
            tv == table@.map_values(|f: ExecFamily| f@),
            sample_views(out@) == relabelled(sv, tv) + table_summaries(sv, tv.subrange(0, f as int)),
        decreases table.len() - f,
    {
        assert(tv.subrange(0, f + 1).drop_last() =~= tv.subrange(0, f as int));
        assert(tv.subrange(0, f + 1).last() == table@[f as int]@);
        push_family_summaries(s, &table[f], &mut out);
        assert(sample_views(out@) =~= relabelled(sv, tv) + table_summaries(sv, tv.subrange(0, f + 1)));
        f = f + 1;
    }
    assert(tv.subrange(0, table.len() as int) =~= tv);
    out
}

/// Classifies one host's samples against the family table.
pub fn classify(s: &Vec<NodeExporterValues>) -> (r: Vec<NodeExporterValues>)
    requires
        wire_values(sample_views(s@)),
    ensures
        sample_views(r@) == classified(sample_views(s@), family_table()),
{
    let table = families();
    classify_with(s, &table)
}

/// Turns the parsed lines of one scrape into classified raw samples. An
/// empty scrape gives no samples.
pub fn parse_node_exporter(wire: Vec<WireSample>) -> (r: Vec<NodeExporterValues>)
    ensures
        sample_views(r@) == classified(raw_of_wires(wire@), family_table()),
        wire@.len() == 0 ==> r@.len() == 0,
{
    let raw = read_samples(wire);
    let r = classify(&raw);
    proof {
        if wire@.len() == 0 {
            assert(raw_of_wires(wire@) =~= Seq::<SampleView>::empty());
            lemma_no_samples_no_summaries(family_table());
        }
    }
    r
}

proof fn lemma_no_samples_no_summaries(table: Seq<Family>)
    ensures
        table_summaries(Seq::<SampleView>::empty(), table) =~= Seq::<SampleView>::empty(),
    decreases table.len(),
{
    if table.len() > 0 {
        lemma_no_samples_no_summaries(table.drop_last());
    }
}

/// Number of summary rules of a table.
pub open spec fn rule_count(table: Seq<Family>) -> nat
    decreases table.len(),
{
    if table.len() == 0 {
        0
    } else {
        rule_count(table.drop_last()) + table.last().rules.len()
    }
}

proof fn lemma_rules_summaries_len(s: Seq<SampleView>, rules: Seq<SummaryRule>)
    ensures
        rules_summaries(s, rules).len() <= rules.len(),
    decreases rules.len(),
{
    if rules.len() > 0 {
        lemma_rules_summaries_len(s, rules.drop_last());
    }
}

proof fn lemma_table_summaries_len(s: Seq<SampleView>, table: Seq<Family>)
    ensures
        table_summaries(s, table).len() <= rule_count(table),
    decreases table.len(),
{
    if table.len() > 0 {
        lemma_table_summaries_len(s, table.drop_last());
        lemma_rules_summaries_len(s, table.last().rules);
    }
}

/// Classification depends on the input samples alone: two runs over the
/// same samples give the same samples back, with the same relabellings,
/// and each run appends at most one summary per rule of the table, so
/// repeated runs never accumulate summaries.
pub proof fn lemma_classification_repeatable(a: Seq<SampleView>, b: Seq<SampleView>, table: Seq<Family>)
    requires
        a == b,
    ensures
        classified(a, table) == classified(b, table),
        relabelled(a, table).len() == a.len(),
        classified(a, table).len() <= a.len() + rule_count(table),
        forall|i: int| 0 <= i < a.len() ==> (#[trigger] classified(a, table)[i]).name == a[i].name
            && classified(a, table)[i].value == a[i].value,
{
    lemma_table_summaries_len(a, table);
}

proof fn lemma_unmatched_rules_silent(s: Seq<SampleView>, rules: Seq<SummaryRule>)
    requires
        forall|r: int| 0 <= r < rules.len() ==> match_count(s, #[trigger] rules[r]) == 0,
    ensures
        rules_summaries(s, rules).len() == 0,
    decreases rules.len(),
{
    if rules.len() > 0 {
        assert forall|r: int| 0 <= r < rules.drop_last().len() implies match_count(s, #[trigger] rules.drop_last()[r]) == 0 by {
            assert(rules.drop_last()[r] == rules[r]);
        }
        lemma_unmatched_rules_silent(s, rules.drop_last());
        assert(match_count(s, rules[rules.len() - 1]) == 0);
    }
}

/// A family synthesizes nothing when its trigger metric is absent, or when
/// none of its rules finds a sample to add up: no summary is back-filled
/// with zero.
pub proof fn lemma_silent_family(s: Seq<SampleView>, fam: Family)
    requires
        !present(s, fam.trigger) || forall|r: int| 0 <= r < fam.rules.len() ==> match_count(s, #[trigger] fam.rules[r]) == 0,
    ensures
        family_summaries(s, fam).len() == 0,
{
    if present(s, fam.trigger) {
        lemma_unmatched_rules_silent(s, fam.rules);
    }
}

/// In the family table every sample that a rule adds up is a member of
/// the rule's family.
pub open spec fn sources_are_members(table: Seq<Family>) -> bool {
    forall|f: int, r: int, x: Seq<char>|
        0 <= f < table.len() && 0 <= r < table[f].rules.len() && #[trigger] table[f].rules[r].sources.contains(x)
            ==> table[f].members.contains(x)
}

proof fn lemma_table_sources_are_members()
    ensures
        sources_are_members(family_table()),
{
    let t = family_table();
    assert forall|f: int, r: int, x: Seq<char>|
        0 <= f < t.len() && 0 <= r < t[f].rules.len() && #[trigger] t[f].rules[r].sources.contains(x)
            implies t[f].members.contains(x) by {
        let src = t[f].rules[r].sources;
        let j = choose|j: int| 0 <= j < src.len() && src[j] == x;
        if f == 0 {
            assert(t[0].members[r + j] == x);
        } else if f == 4 || f == 5 || f == 9 || f == 10 {
            assert(t[f].members[r] == x);
        } else {
            assert(t[f].members[0] == x);
        }
    }
}

/// Every sample that a synthesized summary adds up comes back as a detail
/// sample: the summary replaces it in the `All` view.
pub proof fn lemma_summed_samples_demoted(s: Seq<SampleView>, f: int, r: int, i: int)
    requires
        0 <= f < family_table().len(),
        0 <= r < family_table()[f].rules.len(),
        present(s, family_table()[f].trigger),
        0 <= i < s.len(),
        rule_matches(s[i], family_table()[f].rules[r]),
    ensures
        classified(s, family_table())[i].category == Category::Detail,
{
    lemma_table_sources_are_members();
    let t = family_table();
    assert(t[f].rules[r].sources.contains(s[i].name));
    assert(t[f].members.contains(s[i].name));
    assert(demoted(s, t, s[i]));
}

proof fn lemma_rules_summary_source(s: Seq<SampleView>, rules: Seq<SummaryRule>, j: int) -> (r: int)
    requires
        0 <= j < rules_summaries(s, rules).len(),
    ensures
        0 <= r < rules.len(),
        match_count(s, rules[r]) > 0,
        rules_summaries(s, rules)[j] == summary_of(s, rules[r]),
    decreases rules.len(),
{
    let prev = rules_summaries(s, rules.drop_last());
    if j < prev.len() {
        let r = lemma_rules_summary_source(s, rules.drop_last(), j);
        assert(rules.drop_last()[r] == rules[r]);
        r
    } else {
        (rules.len() - 1) as int
    }
}

proof fn lemma_table_summary_source(s: Seq<SampleView>, table: Seq<Family>, j: int) -> (w: (int, int))
    requires
        0 <= j < table_summaries(s, table).len(),
    ensures
        0 <= w.0 < table.len(),
        0 <= w.1 < table[w.0].rules.len(),
        present(s, table[w.0].trigger),
        match_count(s, table[w.0].rules[w.1]) > 0,
        table_summaries(s, table)[j] == summary_of(s, table[w.0].rules[w.1]),
    decreases table.len(),
{
    let prev = table_summaries(s, table.drop_last());
    if j < prev.len() {
        let (f, r) = lemma_table_summary_source(s, table.drop_last(), j);
        assert(table.drop_last()[f] == table[f]);
        (f, r)
    } else {
        let fam = table.last();
        if !present(s, fam.trigger) {
            assert(family_summaries(s, fam).len() == 0);
        }
        let r = lemma_rules_summary_source(s, fam.rules, j - prev.len());
        ((table.len() - 1) as int, r)
    }
}

/// No summary is back-filled: in the classified samples of a scrape read
/// from the wire (every sample of category `All`), each summary sample is
/// the sum, under a rule of a family whose trigger metric is present, of
/// at least one sample that the rule adds up. A family with no samples, or
/// a bucket that matches none, contributes no summary.
pub proof fn lemma_summaries_have_sources(s: Seq<SampleView>, i: int) -> (w: (int, int))
    requires
        forall|k: int| 0 <= k < s.len() ==> (#[trigger] s[k]).category == Category::All,
        0 <= i < classified(s, family_table()).len(),
        classified(s, family_table())[i].category == Category::Summary,
    ensures
        0 <= w.0 < family_table().len(),
        0 <= w.1 < family_table()[w.0].rules.len(),
        present(s, family_table()[w.0].trigger),
        match_count(s, family_table()[w.0].rules[w.1]) > 0,
        classified(s, family_table())[i] == summary_of(s, family_table()[w.0].rules[w.1]),
{
    let t = family_table();
    let rel = relabelled(s, t);
    assert(classified(s, t) == rel + table_summaries(s, t));
    if i < s.len() {
        assert(rel[i].category == Category::Detail || rel[i] == s[i]);
        assert(false);
    }
    lemma_table_summary_source(s, t, i - s.len())
}

/// The name and fingerprint of a sample.
pub open spec fn sample_key(v: SampleView) -> (Seq<char>, Seq<char>) {
    (v.name, v.labels)
}

/// No two rules of the table produce summaries with the same name and
/// fingerprint.
pub open spec fn rule_keys_distinct(table: Seq<Family>) -> bool {
    forall|f1: int, r1: int, f2: int, r2: int|
        0 <= f1 < table.len() && 0 <= r1 < table[f1].rules.len() && 0 <= f2 < table.len() && 0 <= r2
            < table[f2].rules.len() && (f1 != f2 || r1 != r2) ==> (#[trigger] table[f1].rules[r1]).name
            != (#[trigger] table[f2].rules[r2]).name || table[f1].rules[r1].labels != table[f2].rules[r2].labels
}

/// The rules of the family table have pairwise distinct names or
/// fingerprints: the literals are told apart by their lengths, or by the
/// first character where two of equal length differ.
#[verifier::rlimit(100)]
proof fn lemma_family_table_keys_distinct()
    ensures
        rule_keys_distinct(family_table()),
{
    reveal_strlit("_idle");
    reveal_strlit("_iowait");
    reveal_strlit("_irq");
    reveal_strlit("_nice");
    reveal_strlit("_softirq");
    reveal_strlit("_steal");
    reveal_strlit("_system");
    reveal_strlit("_user");
    reveal_strlit("glog_error_messages");
    reveal_strlit("glog_info_messages");
    reveal_strlit("glog_messages_info");
    reveal_strlit("glog_messages_prio");
    reveal_strlit("glog_warning_messages");
    reveal_strlit("idle");
    reveal_strlit("iowait");
    reveal_strlit("log_append_latency_count");
    reveal_strlit("log_append_latency_sum");
    reveal_strlit("log_bytes_logged");
    reveal_strlit("log_cache_disk_reads");
    reveal_strlit("log_reader_bytes_read");
    reveal_strlit("log_sync_latency_count");
    reveal_strlit("log_sync_latency_sum");
    reveal_strlit("nice");
    reveal_strlit("node_cpu_guest_seconds_total");
    reveal_strlit("node_cpu_seconds_total");
    reveal_strlit("node_schedstat_running_seconds_total");
    reveal_strlit("node_schedstat_timeslices_total");
    reveal_strlit("node_schedstat_waiting_seconds_total");
    reveal_strlit("node_softnet_dropped_total");
    reveal_strlit("node_softnet_processed_total");
    reveal_strlit("node_softnet_times_squeezed_total");
    reveal_strlit("rocksdb_compact_read_bytes");
    reveal_strlit("rocksdb_compact_write_bytes");
    reveal_strlit("rocksdb_flush_write_bytes");
    reveal_strlit("rocksdb_sst_read_micros_count");
    reveal_strlit("rocksdb_sst_read_micros_sum");
    reveal_strlit("rocksdb_write_raw_block_micros_count");
    reveal_strlit("rocksdb_write_raw_block_micros_sum");
    reveal_strlit("steal");
    reveal_strlit("system");
    reveal_strlit("user");
    assert("_idle"@[1] != "_nice"@[1]);
    assert("_idle"@[1] != "_user"@[1]);
    assert("_idle"@[0] != "steal"@[0]);
    assert("_iowait"@[1] != "_system"@[1]);
    assert("_irq"@[0] != "idle"@[0]);
    assert("_irq"@[0] != "nice"@[0]);
    assert("_irq"@[0] != "user"@[0]);
    assert("_nice"@[1] != "_user"@[1]);
    assert("_nice"@[0] != "steal"@[0]);
    assert("_steal"@[0] != "iowait"@[0]);
    assert("_steal"@[0] != "system"@[0]);
    assert("_user"@[0] != "steal"@[0]);
    assert("glog_info_messages"@[5] != "glog_messages_info"@[5]);
    assert("glog_info_messages"@[5] != "glog_messages_prio"@[5]);
    assert("glog_messages_info"@[14] != "glog_messages_prio"@[14]);
    assert("glog_warning_messages"@[0] != "log_reader_bytes_read"@[0]);
    assert("idle"@[0] != "nice"@[0]);
    assert("idle"@[0] != "user"@[0]);
    assert("iowait"@[0] != "system"@[0]);
    assert("log_append_latency_sum"@[4] != "log_sync_latency_count"@[4]);
    assert("log_append_latency_sum"@[0] != "node_cpu_seconds_total"@[0]);
    assert("log_cache_disk_reads"@[4] != "log_sync_latency_sum"@[4]);
    assert("log_sync_latency_count"@[0] != "node_cpu_seconds_total"@[0]);
    assert("nice"@[0] != "user"@[0]);
    assert("node_cpu_guest_seconds_total"@[5] != "node_softnet_processed_total"@[5]);
    assert("node_schedstat_running_seconds_total"@[15] != "node_schedstat_waiting_seconds_total"@[15]);
    assert("node_schedstat_running_seconds_total"@[0] != "rocksdb_write_raw_block_micros_count"@[0]);
    assert("node_schedstat_waiting_seconds_total"@[0] != "rocksdb_write_raw_block_micros_count"@[0]);
    assert("node_softnet_dropped_total"@[0] != "rocksdb_compact_read_bytes"@[0]);
    assert("rocksdb_compact_write_bytes"@[8] != "rocksdb_sst_read_micros_sum"@[8]);
    assert("_idle"@.len() == 5);
    assert("_iowait"@.len() == 7);
    assert("_irq"@.len() == 4);
    assert("_nice"@.len() == 5);
    assert("_softirq"@.len() == 8);
    assert("_steal"@.len() == 6);
    assert("_system"@.len() == 7);
    assert("_user"@.len() == 5);
    assert("glog_error_messages"@.len() == 19);
    assert("glog_info_messages"@.len() == 18);
    assert("glog_messages_info"@.len() == 18);
    assert("glog_messages_prio"@.len() == 18);
    assert("glog_warning_messages"@.len() == 21);
    assert("idle"@.len() == 4);
    assert("iowait"@.len() == 6);
    assert("log_append_latency_count"@.len() == 24);
    assert("log_append_latency_sum"@.len() == 22);
    assert("log_bytes_logged"@.len() == 16);
    assert("log_cache_disk_reads"@.len() == 20);
    assert("log_reader_bytes_read"@.len() == 21);
    assert("log_sync_latency_count"@.len() == 22);
    assert("log_sync_latency_sum"@.len() == 20);
    assert("nice"@.len() == 4);
    assert("node_cpu_guest_seconds_total"@.len() == 28);
    assert("node_cpu_seconds_total"@.len() == 22);
    assert("node_schedstat_running_seconds_total"@.len() == 36);
    assert("node_schedstat_timeslices_total"@.len() == 31);
    assert("node_schedstat_waiting_seconds_total"@.len() == 36);
    assert("node_softnet_dropped_total"@.len() == 26);
    assert("node_softnet_processed_total"@.len() == 28);
    assert("node_softnet_times_squeezed_total"@.len() == 33);
    assert("rocksdb_compact_read_bytes"@.len() == 26);
    assert("rocksdb_compact_write_bytes"@.len() == 27);
    assert("rocksdb_flush_write_bytes"@.len() == 25);
    assert("rocksdb_sst_read_micros_count"@.len() == 29);
    assert("rocksdb_sst_read_micros_sum"@.len() == 27);
    assert("rocksdb_write_raw_block_micros_count"@.len() == 36);
    assert("rocksdb_write_raw_block_micros_sum"@.len() == 34);
    assert("steal"@.len() == 5);
    assert("system"@.len() == 6);
    assert("user"@.len() == 4);
    let t = family_table();
    assert(rule_keys_distinct(t));
}

proof fn lemma_rules_summaries_distinct(s: Seq<SampleView>, rules: Seq<SummaryRule>)
    requires
        forall|a: int, b: int|
            0 <= a < b < rules.len() ==> (#[trigger] rules[a]).name != (#[trigger] rules[b]).name || rules[a].labels
                != rules[b].labels,
    ensures
        forall|a: int, b: int|
            0 <= a < b < rules_summaries(s, rules).len() ==> sample_key(#[trigger] rules_summaries(s, rules)[a])
                != sample_key(#[trigger] rules_summaries(s, rules)[b]),
    decreases rules.len(),
{
    if rules.len() > 0 {
        let d = rules.drop_last();
        assert forall|a: int, b: int| 0 <= a < b < d.len() implies (#[trigger] d[a]).name != (#[trigger] d[b]).name
            || d[a].labels != d[b].labels by {
            assert(d[a] == rules[a] && d[b] == rules[b]);
        }
        lemma_rules_summaries_distinct(s, d);
        let prev = rules_summaries(s, d);
        let all = rules_summaries(s, rules);
        assert forall|a: int, b: int| 0 <= a < b < all.len() implies sample_key(#[trigger] all[a]) != sample_key(
            #[trigger] all[b],
        ) by {
            if b >= prev.len() {
                let r = lemma_rules_summary_source(s, d, a);
                assert(d[r] == rules[r]);
                assert(all[a] == prev[a]);
            } else {
                assert(all[a] == prev[a] && all[b] == prev[b]);
            }
        }
    }
}

proof fn lemma_table_summaries_distinct(s: Seq<SampleView>, table: Seq<Family>)
    requires
        rule_keys_distinct(table),
    ensures
        forall|a: int, b: int|
            0 <= a < b < table_summaries(s, table).len() ==> sample_key(#[trigger] table_summaries(s, table)[a])
                != sample_key(#[trigger] table_summaries(s, table)[b]),
    decreases table.len(),
{
    if table.len() > 0 {
        let d = table.drop_last();
        let last = table.last();
        assert(rule_keys_distinct(d)) by {
            assert forall|f1: int, r1: int, f2: int, r2: int|
                0 <= f1 < d.len() && 0 <= r1 < d[f1].rules.len() && 0 <= f2 < d.len() && 0 <= r2 < d[f2].rules.len() && (
                f1 != f2 || r1 != r2) implies (#[trigger] d[f1].rules[r1]).name != (#[trigger] d[f2].rules[r2]).name
                || d[f1].rules[r1].labels != d[f2].rules[r2].labels by {
                assert(d[f1] == table[f1] && d[f2] == table[f2]);
            }
        }
        lemma_table_summaries_distinct(s, d);
        let fl = table.len() - 1;
        assert forall|a: int, b: int| 0 <= a < b < last.rules.len() implies (#[trigger] last.rules[a]).name != (
        #[trigger] last.rules[b]).name || last.rules[a].labels != last.rules[b].labels by {
            assert(table[fl] == last);
            assert(table[fl].rules[a] == last.rules[a]);
            assert(table[fl].rules[b] == last.rules[b]);
        }
        lemma_rules_summaries_distinct(s, last.rules);
        let prev = table_summaries(s, d);
        let fam = family_summaries(s, last);
        let all = table_summaries(s, table);
        assert(all == prev + fam);
        assert forall|a: int, b: int| 0 <= a < b < all.len() implies sample_key(#[trigger] all[a]) != sample_key(
            #[trigger] all[b],
        ) by {
            if b < prev.len() {
                assert(all[a] == prev[a] && all[b] == prev[b]);
            } else if a >= prev.len() {
                assert(all[a] == fam[a - prev.len()] && all[b] == fam[b - prev.len()]);
                assert(present(s, last.trigger));
            } else {
                let (f, r) = lemma_table_summary_source(s, d, a);
                assert(d[f] == table[f]);
                if !present(s, last.trigger) {
                    assert(fam.len() == 0);
                }
                let r2 = lemma_rules_summary_source(s, last.rules, b - prev.len());
                assert(table[fl] == last);
                assert(all[a] == summary_of(s, table[f].rules[r]));
                assert(all[b] == summary_of(s, table[fl].rules[r2]));
            }
        }
    }
}

/// Classification never accumulates summaries: among the classified samples
/// of a scrape, at most one summary sample has a given name and fingerprint.
pub proof fn lemma_one_summary_per_key(s: Seq<SampleView>)
    requires
        forall|k: int| 0 <= k < s.len() ==> (#[trigger] s[k]).category == Category::All,
    ensures
        forall|a: int, b: int|
            0 <= a < b < classified(s, family_table()).len() && classified(s, family_table())[a].category
                == Category::Summary && classified(s, family_table())[b].category == Category::Summary ==> sample_key(
                #[trigger] classified(s, family_table())[a],
            ) != sample_key(#[trigger] classified(s, family_table())[b]),
{
    let t = family_table();
    lemma_family_table_keys_distinct();
    lemma_table_summaries_distinct(s, t);
    let c = classified(s, t);
    let ts = table_summaries(s, t);
    assert(c == relabelled(s, t) + ts);
    assert forall|a: int, b: int|
        0 <= a < b < c.len() && c[a].category == Category::Summary && c[b].category == Category::Summary implies sample_key(
            #[trigger] c[a],
        ) != sample_key(#[trigger] c[b]) by {
        if a < s.len() {
            assert(relabelled(s, t)[a].category != Category::Summary);
        } else {
            assert(c[a] == ts[a - s.len()] && c[b] == ts[b - s.len()]);
        }
    }
}

} // verus!
