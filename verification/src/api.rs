//! The data that flows from the telemetry source to the observers: a raw
//! sample per source, its display-ready projection, and the sort key of a batch.

use vstd::prelude::*;
use vstd::std_specs::convert::FromSpecImpl;
use crate::format::{calculate_cpu_percent, cpu_text, format_memory, optional_memory_text};
use crate::text::{drop_first_char, trim_prefix, trimmed, without_first};

verus! {

/// One source's raw measurement at one instant.
#[derive(Debug, Clone, PartialEq, Eq)]
pub struct MetricSample {
    /// Stable identifier of the source.
    pub source_id: String,
    /// Name under which the source is shown.
    pub display_name: String,
    /// Memory in use, absent where the source does not expose it.
    pub memory_bytes: Option<u64>,
    /// Processor time consumed by the source, at this reading.
    pub cpu_counter_now: u64,
    /// Processor time consumed by the source, at the reading before.
    pub cpu_counter_prev: u64,
    /// Processor time consumed by the whole system, at this reading.
    pub system_counter_now: Option<u64>,
    /// Processor time consumed by the whole system, at the reading before.
    pub system_counter_prev: Option<u64>,
    /// Whether the source stopped reporting cleanly.
    pub is_exited: bool,
}

/// The mathematical content of a [`MetricSample`].
pub struct MetricSampleView {
    pub source_id: Seq<char>,
    pub display_name: Seq<char>,
    pub memory_bytes: Option<u64>,
    pub cpu_counter_now: u64,
    pub cpu_counter_prev: u64,
    pub system_counter_now: Option<u64>,
    pub system_counter_prev: Option<u64>,
    pub is_exited: bool,
}

impl View for MetricSample {
    type V = MetricSampleView;

    open spec fn view(&self) -> MetricSampleView {
        MetricSampleView {
            source_id: self.source_id@,
            display_name: self.display_name@,
            memory_bytes: self.memory_bytes,
            cpu_counter_now: self.cpu_counter_now,
            cpu_counter_prev: self.cpu_counter_prev,
            system_counter_now: self.system_counter_now,
            system_counter_prev: self.system_counter_prev,
            is_exited: self.is_exited,
        }
    }
}

impl DeepView for MetricSample {
    type V = MetricSampleView;

    open spec fn deep_view(&self) -> MetricSampleView {
        self@
    }
}

impl MetricSample {
    /// Builds a sample from what the runtime reports of a source. The runtime
    /// writes a separator in front of a source's name, which the display name
    /// leaves out; a source that reports no memory has exited.
    pub fn from_reading(
        source_id: String,
        runtime_name: String,
        memory_bytes: Option<u64>,
        cpu_counter_now: u64,
        cpu_counter_prev: u64,
        system_counter_now: Option<u64>,
        system_counter_prev: Option<u64>,
    ) -> (sample: MetricSample)
        ensures
            sample@ == (MetricSampleView {
                source_id: source_id@,
                display_name: without_first(runtime_name@),
                memory_bytes,
                cpu_counter_now,
                cpu_counter_prev,
                system_counter_now,
                system_counter_prev,
                is_exited: memory_bytes is None,
            }),
    {
        let display_name = String::from_str(drop_first_char(runtime_name.as_str()));
        let is_exited = memory_bytes.is_none();
        MetricSample {
            source_id,
            display_name,
            memory_bytes,
            cpu_counter_now,
            cpu_counter_prev,
            system_counter_now,
            system_counter_prev,
            is_exited,
        }
    }
}

/// The display-ready projection of a sample, as it goes over the wire.
#[derive(Debug, Clone, PartialEq, Eq)]
pub struct ContainerStats {
    /// The wire identifier: the prefix and the source's identifier.
    pub id: String,
    /// Name under which the source is shown.
    pub name: String,
    /// Memory in use, scaled to the largest fitting unit, or the sentinel.
    pub memory_usage: String,
    /// Processor usage as a percentage, or the sentinel.
    pub cpu_usage: String,
    /// Whether the source stopped reporting cleanly.
    pub exited: bool,
}

/// The mathematical content of a [`ContainerStats`].
pub struct ContainerStatsView {
    pub id: Seq<char>,
    pub name: Seq<char>,
    pub memory_usage: Seq<char>,
    pub cpu_usage: Seq<char>,
    pub exited: bool,
}

impl View for ContainerStats {
    type V = ContainerStatsView;

    open spec fn view(&self) -> ContainerStatsView {
        ContainerStatsView {
            id: self.id@,
            name: self.name@,
            memory_usage: self.memory_usage@,
            cpu_usage: self.cpu_usage@,
            exited: self.exited,
        }
    }
}

impl DeepView for ContainerStats {
    type V = ContainerStatsView;

    open spec fn deep_view(&self) -> ContainerStatsView {
        self@
    }
}

/// The prefix that every wire identifier starts with.
pub open spec fn id_prefix() -> Seq<char> {
    seq!['c', 'o', 'n', 't', 'a', 'i', 'n', 'e', 'r', '_']
}

/// The projection of a sample: the prefixed identifier, the name as it is,
/// each metric rendered on its own, and the exit flag as it is.
pub open spec fn formatted(sample: MetricSampleView) -> ContainerStatsView {
    ContainerStatsView {
        id: id_prefix() + sample.source_id,
        name: sample.display_name,
        memory_usage: optional_memory_text(sample.memory_bytes),
        cpu_usage: cpu_text(
            sample.cpu_counter_now,
            sample.cpu_counter_prev,
            sample.system_counter_now,
            sample.system_counter_prev,
        ),
        exited: sample.is_exited,
    }
}

impl From<MetricSample> for ContainerStats {
    /// Formats a sample for display.
    fn from(sample: MetricSample) -> (stats: ContainerStats)
        ensures
            stats@ == formatted(sample@),
    {
        proof {
            reveal_strlit("container_");
        }
        let id = String::from_str("container_").concat(sample.source_id.as_str());
        assert(id@ =~= id_prefix() + sample.source_id@);
        let memory_usage = format_memory(sample.memory_bytes);
        let cpu_usage = calculate_cpu_percent(
            sample.cpu_counter_now,
            sample.cpu_counter_prev,
            sample.system_counter_now,
            sample.system_counter_prev,
        );
        ContainerStats {
            id,
            name: sample.display_name,
            memory_usage,
            cpu_usage,
            exited: sample.is_exited,
        }
    }
}

/// The conversion is specified through the view of its result, by the function
/// [`formatted`]: two strings with the same characters need not be the same
/// value, so no value of the result type can be named in advance.
impl FromSpecImpl<MetricSample> for ContainerStats {
    open spec fn obeys_from_spec() -> bool {
        false
    }

    open spec fn from_spec(sample: MetricSample) -> ContainerStats {
        arbitrary()
    }
}

/// The key by which a batch is ordered.
#[derive(Debug, Clone, Copy, PartialEq, Eq)]
pub enum SortKey {
    /// By name, ascending.
    Name,
    /// By memory in use, descending.
    Memory,
    /// By processor usage, descending.
    Cpu,
}

/// The sort key that a requested word selects: `memory` and `cpu` select their
/// keys, and every other word, `name` included, selects the name.
pub open spec fn sort_key_of(word: Seq<char>) -> SortKey {
    if word == seq!['m', 'e', 'm', 'o', 'r', 'y'] {
        SortKey::Memory
    } else if word == seq!['c', 'p', 'u'] {
        SortKey::Cpu
    } else {
        SortKey::Name
    }
}

impl From<String> for SortKey {
    /// Reads a requested sort key; an unrecognized word falls back to the name.
    fn from(s: String) -> (key: SortKey)
        ensures
            key == sort_key_of(s@),
    {
        proof {
            reveal_strlit("memory");
            reveal_strlit("cpu");
        }
        let memory = String::from_str("memory");
        let cpu = String::from_str("cpu");
        assert(memory@ =~= seq!['m', 'e', 'm', 'o', 'r', 'y']);
        assert(cpu@ =~= seq!['c', 'p', 'u']);
        if s == memory {
            SortKey::Memory
        } else if s == cpu {
            SortKey::Cpu
        } else {
            SortKey::Name
        }
    }
}

impl FromSpecImpl<String> for SortKey {
    open spec fn obeys_from_spec() -> bool {
        true
    }

    open spec fn from_spec(s: String) -> SortKey {
        sort_key_of(s@)
    }
}

impl Default for SortKey {
    /// The default key is the name.
    fn default() -> (key: SortKey)
        ensures
            key == SortKey::Name,
    {
        SortKey::Name
    }
}

/// The seconds a source is given to stop before a restart forces it.
pub const RESTART_GRACE_SECONDS: u32 = 10;

/// What a page request asks for.
#[derive(Debug, Clone, PartialEq, Eq)]
pub struct PageRequest {
    /// The order of the rows.
    pub sort_key: SortKey,
    /// The source to restart before sampling, by its bare identifier.
    pub restart: Option<String>,
}

/// The source identifier inside a wire identifier: the text without its
/// leading prefix, however often the prefix is repeated. An identifier given
/// without the prefix stands for itself.
pub open spec fn bare_id(id: Seq<char>) -> Seq<char> {
    trimmed(id, id_prefix())
}

/// Takes the prefix off a wire identifier.
pub fn source_id_of(id: &str) -> (bare: &str)
    ensures
        bare@ == bare_id(id@),
{
    proof {
        reveal_strlit("container_");
    }
    trim_prefix(id, "container_")
}

/// Reads the parameters of a page request. A missing or unrecognized sort key
/// means the name; a restart target loses its wire prefix.
pub fn read_request(sort_key: Option<String>, restart: Option<String>) -> (request: PageRequest)
    ensures
        request.sort_key == match sort_key {
            Some(word) => sort_key_of(word@),
            None => SortKey::Name,
        },
        request.restart is Some == restart is Some,
        restart matches Some(id) ==> request.restart.unwrap()@ == bare_id(id@),
{
    let key = match sort_key {
        Some(word) => SortKey::from(word),
        None => SortKey::default(),
    };
    let target = match restart {
        Some(id) => Some(String::from_str(source_id_of(id.as_str()))),
        None => None,
    };
    PageRequest { sort_key: key, restart: target }
}

/// The line that tells the user how a restart went.
pub fn restart_status(restarted: bool) -> (line: &'static str)
    ensures
        line@ == if restarted {
            "Container restarted"@
        } else {
            "Error restarting container"@
        },
{
    if restarted {
        "Container restarted"
    } else {
        "Error restarting container"
    }
}

} // verus!
