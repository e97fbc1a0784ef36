//! Samples as the exposition parser hands them over, and the library's own
//! raw sample record with its label fingerprint, kind and category.
use vstd::prelude::*;
use crate::text::{fingerprint_of, label_fingerprint, string_views};

verus! {

/// Whether a value is cumulative (differenced over time) or instantaneous.
#[derive(Clone, Copy, Debug, PartialEq, Eq, Structural)]
pub enum Kind {
    Counter,
    Gauge,
}

/// `All` for a sample as read, `Detail` for a sample that has been folded
/// into a synthesized aggregate (or is internal to the exporter), `Summary`
/// for a synthesized aggregate.
#[derive(Clone, Copy, Debug, PartialEq, Eq, Structural)]
pub enum Category {
    All,
    Detail,
    Summary,
}

/// The value of one line of the exposition format, by its wire type.
/// Scalar values are in thousandths of the metric's unit.
#[derive(Clone, Copy, Debug, PartialEq, Eq, Structural)]
pub enum WireValue {
    Counter(i64),
    Gauge(i64),
    Untyped(i64),
    Histogram,
    Summary,
}

/// One parsed line: metric name, the values of its labels (in any order),
/// its value and the timestamp (milliseconds since the Unix epoch, UTC).
#[derive(Debug)]
pub struct WireSample {
    pub metric: String,
    pub label_values: Vec<String>,
    pub value: WireValue,
    pub timestamp_ms: i64,
}

/// One raw sample of a scrape. `node_exporter_value` is in thousandths of
/// the metric's unit; `node_exporter_timestamp` is in milliseconds since the
/// Unix epoch (UTC), as reported by the endpoint.
#[derive(Debug)]
pub struct NodeExporterValues {
    pub node_exporter_name: String,
    pub node_exporter_type: Kind,
    pub node_exporter_labels: String,
    pub node_exporter_category: Category,
    pub node_exporter_value: i128,
    pub node_exporter_timestamp: i64,
}

/// The mathematical content of a raw sample.
pub struct SampleView {
    pub name: Seq<char>,
    pub kind: Kind,
    pub labels: Seq<char>,
    pub category: Category,
    pub value: int,
    pub timestamp: int,
}

impl View for NodeExporterValues {
    type V = SampleView;

    open spec fn view(&self) -> SampleView {
        SampleView {
            name: self.node_exporter_name@,
            kind: self.node_exporter_type,
            labels: self.node_exporter_labels@,
            category: self.node_exporter_category,
            value: self.node_exporter_value as int,
            timestamp: self.node_exporter_timestamp as int,
        }
    }
}

/// The views of a sequence of raw samples.
pub open spec fn sample_views(s: Seq<NodeExporterValues>) -> Seq<SampleView> {
    s.map_values(|r: NodeExporterValues| r@)
}

/// The raw sample a wire sample becomes, if it has one: counters and gauges
/// keep their kind, untyped values count as counters, and histograms and
/// summaries have no representation.
pub open spec fn raw_of_wire(w: WireSample) -> Option<SampleView> {
    let mk = |kind: Kind, v: i64|
        SampleView {
            name: w.metric@,
            kind: kind,
            labels: fingerprint_of(string_views(w.label_values@)),
            category: Category::All,
            value: v as int,
            timestamp: w.timestamp_ms as int,
        };
    match w.value {
        WireValue::Counter(v) => Some(mk(Kind::Counter, v)),
        WireValue::Gauge(v) => Some(mk(Kind::Gauge, v)),
        WireValue::Untyped(v) => Some(mk(Kind::Counter, v)),
        WireValue::Histogram => None,
        WireValue::Summary => None,
    }
}

/// The raw samples of a sequence of wire samples, in order.
pub open spec fn raw_of_wires(ws: Seq<WireSample>) -> Seq<SampleView>
    decreases ws.len(),
{
    if ws.len() == 0 {
        Seq::empty()
    } else {
        let prev = raw_of_wires(ws.drop_last());
        match raw_of_wire(ws.last()) {
            Some(r) => prev.push(r),
            None => prev,
        }
    }
}

/// A value that a wire sample can carry.
pub open spec fn fits_wire(v: int) -> bool {
    i64::MIN <= v <= i64::MAX
}

proof fn lemma_raw_of_wires_fit(ws: Seq<WireSample>)
    ensures
        forall|i: int| 0 <= i < raw_of_wires(ws).len() ==> fits_wire(#[trigger] raw_of_wires(ws)[i].value),
        raw_of_wires(ws).len() <= ws.len(),
    decreases ws.len(),
{
    if ws.len() > 0 {
        lemma_raw_of_wires_fit(ws.drop_last());
    }
}

/// Copies a raw sample, field by field.
pub fn copy_sample(r: &NodeExporterValues) -> (c: NodeExporterValues)
    ensures
        c@ == r@,
{
    NodeExporterValues {
        node_exporter_name: r.node_exporter_name.clone(),
        node_exporter_type: r.node_exporter_type,
        node_exporter_labels: r.node_exporter_labels.clone(),
        node_exporter_category: r.node_exporter_category,
        node_exporter_value: r.node_exporter_value,
        node_exporter_timestamp: r.node_exporter_timestamp,
    }
}

/// Turns parsed lines into raw samples: computes each label fingerprint,
/// maps the wire type to a kind, and drops histograms and summaries. Every
/// sample comes out with category `All`.
pub fn read_samples(wire: Vec<WireSample>) -> (r: Vec<NodeExporterValues>)
    ensures
        sample_views(r@) == raw_of_wires(wire@),
        forall|i: int| 0 <= i < r@.len() ==> fits_wire(#[trigger] r@[i]@.value),
{
    let ghost ws = wire@;
    let mut out: Vec<NodeExporterValues> = Vec::new();
    let mut rest = wire;
    let mut i: usize = 0;
    let n = rest.len();
    let mut pending: Vec<WireSample> = Vec::new();
    // reversed, so that `pop` hands the lines out in their order
    while rest.len() > 0
        invariant
            pending@ + rest@.reverse() == ws.reverse(),
        decreases rest.len(),
    {
        let ghost before = rest@;
        let w = rest.pop().unwrap();
        proof {
            assert(before =~= rest@.push(w));
            assert(before.reverse() =~= seq![w] + rest@.reverse());
        }
        pending.push(w);
        assert(pending@ + rest@.reverse() =~= ws.reverse());
    }
    assert(pending@ =~= ws.reverse());
    assert(ws.subrange(0, 0) =~= Seq::<WireSample>::empty());
    while pending.len() > 0
        invariant
            i <= n,
            n == ws.len(),
            pending@.len() == n - i,
            pending@ == ws.subrange(i as int, n as int).reverse(),
            sample_views(out@) == raw_of_wires(ws.subrange(0, i as int)),
        decreases pending.len(),
    {
        let ghost before = pending@;
        let w = pending.pop().unwrap();
        proof {
            assert(w == ws[i as int]) by {
                assert(before.last() == ws.subrange(i as int, n as int).reverse().last());
            }
            assert(pending@ =~= ws.subrange(i + 1, n as int).reverse());
            assert(ws.subrange(0, i + 1).drop_last() =~= ws.subrange(0, i as int));
        }
        let ghost prev_out = out@;
        let kind_value: Option<(Kind, i64)> = match w.value {
            WireValue::Counter(v) => Some((Kind::Counter, v)),
            WireValue::Gauge(v) => Some((Kind::Gauge, v)),
            WireValue::Untyped(v) => Some((Kind::Counter, v)),
            WireValue::Histogram => None,
            WireValue::Summary => None,
        };
        match kind_value {
            Some((kind, v)) => {
                let WireSample { metric, label_values, value: _, timestamp_ms } = w;
                let labels = label_fingerprint(label_values);
                out.push(
                    NodeExporterValues {
                        node_exporter_name: metric,
                        node_exporter_type: kind,
                        node_exporter_labels: labels,
                        node_exporter_category: Category::All,
                        node_exporter_value: v as i128,
                        node_exporter_timestamp: timestamp_ms,
                    },
                );
                assert(sample_views(out@) =~= sample_views(prev_out).push(out@.last()@));
            },
            None => {},
        }
        i = i + 1;
    }
    proof {
        assert(ws.subrange(0, n as int) =~= ws);
        lemma_raw_of_wires_fit(ws);
        assert forall|i: int| 0 <= i < out@.len() implies fits_wire(#[trigger] out@[i]@.value) by {
            assert(sample_views(out@)[i] == out@[i]@);
        }
    }
    out
}

} // verus!
