//! A host-monitoring client's core: label fingerprints, classification of
//! scraped exposition samples into detail and summary samples, typed CPU,
//! disk and database I/O facts, and the rate engine that turns cumulative
//! counters into per-second rates.
//!
//! Values are fixed-point: thousandths of the metric's unit. Timestamps are
//! milliseconds since the Unix epoch (UTC).
pub mod classify;
pub mod facts;
pub mod rate;
pub mod sample;
pub mod snapshot;
pub mod text;
pub mod tick;

pub use classify::{classify, parse_node_exporter};
pub use facts::{
    cpu_details, disk_details, yugabyte_details, CpuDetails, DiskDetail, DiskHost, MissingMetric,
    YugabyteIODetails,
};
pub use rate::{
    diff_cpu_details, diff_disk_details, diff_yugabyte_details, CounterRate, CpuPresentation,
    DiskPresentation, Presentations, Rate, YBIOPresentation,
};
pub use sample::{read_samples, Category, Kind, NodeExporterValues, WireSample, WireValue};
pub use snapshot::{
    add_to_node_exporter_vectors, assemble_snapshot, scrape_targets, HostEntry, HostSnapshot,
    ScrapeTarget, StoredNodeExporterValues,
};
pub use text::label_fingerprint;
pub use tick::remaining_sleep_ms;
