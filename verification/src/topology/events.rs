//! Batches of events, by what the events are.

use vstd::prelude::*;

verus! {

/// Which kinds of events a component takes.
#[derive(Debug, Clone, Copy, PartialEq, Eq, Structural)]
pub struct DataType {
    pub log: bool,
    pub metric: bool,
    pub trace: bool,
}

/// Logs only.
pub open spec fn log_type() -> DataType {
    DataType { log: true, metric: false, trace: false }
}

/// Metrics only.
pub open spec fn metric_type() -> DataType {
    DataType { log: false, metric: true, trace: false }
}

/// Traces only.
pub open spec fn trace_type() -> DataType {
    DataType { log: false, metric: false, trace: true }
}

/// Every kind of `part` is a kind of `whole`.
pub open spec fn type_contains(whole: DataType, part: DataType) -> bool {
    (part.log ==> whole.log) && (part.metric ==> whole.metric) && (part.trace ==> whole.trace)
}

impl DataType {
    /// Tells whether every kind of another set of kinds belongs to this one.
    pub fn contains(self, other: DataType) -> (contained: bool)
        ensures
            contained == type_contains(self, other),
    {
        (!other.log || self.log) && (!other.metric || self.metric) && (!other.trace || self.trace)
    }

    /// Logs only.
    pub fn log() -> (kind: DataType)
        ensures
            kind == log_type(),
    {
        DataType { log: true, metric: false, trace: false }
    }

    /// Metrics only.
    pub fn metric() -> (kind: DataType)
        ensures
            kind == metric_type(),
    {
        DataType { log: false, metric: true, trace: false }
    }

    /// Traces only.
    pub fn trace() -> (kind: DataType)
        ensures
            kind == trace_type(),
    {
        DataType { log: false, metric: false, trace: true }
    }
}

/// A batch of events of one kind.
pub enum EventArray<L, M, T> {
    Logs(Vec<L>),
    Metrics(Vec<M>),
    Traces(Vec<T>),
}

/// The kind of the events of a batch.
pub open spec fn kind_of<L, M, T>(events: EventArray<L, M, T>) -> DataType {
    match events {
        EventArray::Logs(_) => log_type(),
        EventArray::Metrics(_) => metric_type(),
        EventArray::Traces(_) => trace_type(),
    }
}

/// How many events a batch holds.
pub open spec fn event_count<L, M, T>(events: EventArray<L, M, T>) -> nat {
    match events {
        EventArray::Logs(logs) => logs@.len(),
        EventArray::Metrics(metrics) => metrics@.len(),
        EventArray::Traces(traces) => traces@.len(),
    }
}

impl<L, M, T> EventArray<L, M, T> {
    /// How many events the batch holds.
    pub fn len(&self) -> (len: usize)
        ensures
            len == event_count(*self),
    {
        match self {
            EventArray::Logs(logs) => logs.len(),
            EventArray::Metrics(metrics) => metrics.len(),
            EventArray::Traces(traces) => traces.len(),
        }
    }
}

/// Tells whether a component that takes the given kinds takes a batch.
pub fn filter_events_type<L, M, T>(events: &EventArray<L, M, T>, data_type: DataType) -> (passes:
    bool)
    ensures
        passes == type_contains(data_type, kind_of(*events)),
{
    match events {
        EventArray::Logs(_) => data_type.contains(DataType::log()),
        EventArray::Metrics(_) => data_type.contains(DataType::metric()),
        EventArray::Traces(_) => data_type.contains(DataType::trace()),
    }
}

/// A component takes a batch exactly where it takes events of the kind that the batch holds, and
/// the events of a batch are counted one by one, whatever their kind.
pub proof fn law_batches_by_kind<L, M, T>(
    events: EventArray<L, M, T>,
    data_type: DataType,
    passes: bool,
    len: usize,
)
    requires
        call_ensures(filter_events_type::<L, M, T>, (&events, data_type), passes),
        call_ensures(EventArray::<L, M, T>::len, (&events,), len),
    ensures
        match events {
            EventArray::Logs(logs) => passes == data_type.log && len == logs@.len(),
            EventArray::Metrics(metrics) => passes == data_type.metric && len == metrics@.len(),
            EventArray::Traces(traces) => passes == data_type.trace && len == traces@.len(),
        },
{
}

/// A set of kinds belongs to another exactly where each of its kinds does: so each belongs to
/// itself, and what belongs to a part belongs to the whole.
pub proof fn law_kinds_within(
    whole: DataType,
    part: DataType,
    inner: DataType,
    contained: bool,
    within: bool,
)
    requires
        call_ensures(DataType::contains, (whole, part), contained),
        call_ensures(DataType::contains, (whole, inner), within),
    ensures
        contained <==> !(part.log && !whole.log) && !(part.metric && !whole.metric) && !(part.trace
            && !whole.trace),
        part == whole ==> contained,
        contained && type_contains(part, inner) ==> within,
{
}

} // verus!
