//! How the tasks of a topology run: what each does with what it hears next.

use vstd::prelude::*;

use crate::config::{clone_ids, ComponentKey, Domain, OutputId, TransformOuter};
use crate::text::opt_text;
use crate::topology::events::{
    event_count, filter_events_type, kind_of, type_contains, DataType, EventArray,
};

verus! {

// ---------------------------------------------------------------------------------------------
// Sizes.
// ---------------------------------------------------------------------------------------------

/// How many batches the buffer in front of a transform holds.
pub const TOPOLOGY_BUFFER_SIZE: usize = 100;

/// How many events the buffer for what comes of a batch starts with, where a transform is run
/// inline.
pub const INLINE_BATCH_SIZE: usize = 128;

/// What the metrics of the buffers in front of transforms are called by.
pub const TRANSFORM_CHANNEL_METRIC_PREFIX: &'static str = "transform_buffer";

/// How many batches a transform may work on at once: as many as there are worker threads, where
/// their number is set, else as many as there are threads.
pub fn transform_concurrency_limit(worker_threads: Option<usize>, num_threads: usize) -> (limit:
    usize)
    ensures
        limit == (match worker_threads {
            Some(threads) => threads,
            None => num_threads,
        }),
{
    match worker_threads {
        Some(threads) => threads,
        None => num_threads,
    }
}

/// How many events the buffer between a source and its pump holds: a chunk for each batch that a
/// transform may work on at once.
pub fn source_sender_buffer_size(concurrency_limit: usize, chunk_size: usize) -> (size: usize)
    requires
        concurrency_limit * chunk_size <= usize::MAX,
    ensures
        size == concurrency_limit * chunk_size,
{
    concurrency_limit * chunk_size
}

/// How many events are taken in at once where a transform works on several batches: four chunks.
pub fn ready_array_capacity(chunk_size: usize) -> (capacity: usize)
    requires
        chunk_size * 4 <= usize::MAX,
    ensures
        capacity == chunk_size * 4,
{
    chunk_size * 4
}

// ---------------------------------------------------------------------------------------------
// Sources.
// ---------------------------------------------------------------------------------------------

/// What a pump of a source hears.
pub enum PumpInput<B, E> {
    /// The source gave out a batch.
    Received(B),
    /// The last batch was passed on, or could not be.
    Sent(Result<(), E>),
    /// The source gives out nothing any more.
    Closed,
}

/// What a pump of a source does next.
pub enum PumpAction<B, E> {
    /// It waits for the next batch.
    Receive,
    /// It marks a batch with where it comes from, and passes it on.
    Send(B),
    /// It ends.
    Stop(Result<(), E>),
}

/// What a pump of a source does next. A batch that cannot be passed on ends it.
pub fn run_pump<B, E>(input: PumpInput<B, E>) -> (action: PumpAction<B, E>)
    ensures
        action == (match input {
            PumpInput::Received(batch) => PumpAction::Send(batch),
            PumpInput::Sent(Ok(())) => PumpAction::Receive,
            PumpInput::Sent(Err(error)) => PumpAction::Stop(Err(error)),
            PumpInput::Closed => PumpAction::Stop(Ok(())),
        }),
{
    match input {
        PumpInput::Received(batch) => PumpAction::Send(batch),
        PumpInput::Sent(Ok(())) => PumpAction::Receive,
        PumpInput::Sent(Err(error)) => PumpAction::Stop(Err(error)),
        PumpInput::Closed => PumpAction::Stop(Ok(())),
    }
}

/// What the supervisor of the pumps of a source hears.
pub enum PumpEvent<E, J> {
    /// A pump came to its end.
    Ended(Result<(), E>),
    /// A pump panicked or was cancelled.
    Lost(J),
    /// All pumps have come to their end.
    NoneLeft,
}

/// What the supervisor does next.
pub enum PumpStep<E, J> {
    /// It waits for the next pump.
    Wait,
    /// It reports an error to the source, where there is one, and ends.
    Stop { report: Option<E>, result: Result<(), J> },
}

/// What the supervisor of the pumps of a source does next. The first error of a pump is reported
/// to the source, and the supervisor itself ends well; a pump that is lost fails the supervisor.
pub fn supervise_pumps<E, J>(event: PumpEvent<E, J>) -> (step: PumpStep<E, J>)
    ensures
        step == (match event {
            PumpEvent::Ended(Ok(())) => PumpStep::Wait,
            PumpEvent::Ended(Err(error)) => PumpStep::Stop { report: Some(error), result: Ok(()) },
            PumpEvent::Lost(cause) => PumpStep::Stop { report: None, result: Err(cause) },
            PumpEvent::NoneLeft => PumpStep::Stop { report: None, result: Ok(()) },
        }),
{
    match event {
        PumpEvent::Ended(Ok(())) => PumpStep::Wait,
        PumpEvent::Ended(Err(error)) => PumpStep::Stop { report: Some(error), result: Ok(()) },
        PumpEvent::Lost(cause) => PumpStep::Stop { report: None, result: Err(cause) },
        PumpEvent::NoneLeft => PumpStep::Stop { report: None, result: Ok(()) },
    }
}

/// Why a source ended with an error.
pub enum SourceError<E> {
    /// A pump of the source failed.
    Pump(E),
    /// The source itself failed, and does not say why.
    Opaque,
}

/// What makes a source end first: a forced shutdown, then an error of a pump, then its own end.
pub open spec fn source_choice<E>(
    forced: bool,
    pump_error: Option<E>,
    server: Option<Result<(), ()>>,
) -> Option<Result<(), SourceError<E>>> {
    if forced {
        Some(Ok(()))
    } else {
        match (pump_error, server) {
            (Some(error), _) => Some(Err(SourceError::Pump(error))),
            (None, Some(Ok(()))) => Some(Ok(())),
            (None, Some(Err(()))) => Some(Err(SourceError::Opaque)),
            (None, None) => None,
        }
    }
}

/// Tells whether a source ends, given what has happened so far: whether it was told to shut down
/// by force, whether a pump reported an error and whether the source itself came to its end.
pub fn select_source<E>(
    forced: bool,
    pump_error: Option<E>,
    server: Option<Result<(), ()>>,
) -> (end: Option<Result<(), SourceError<E>>>)
    ensures
        end == source_choice(forced, pump_error, server),
{
    if forced {
        Some(Ok(()))
    } else {
        match (pump_error, server) {
            (Some(error), _) => Some(Err(SourceError::Pump(error))),
            (None, Some(Ok(()))) => Some(Ok(())),
            (None, Some(Err(()))) => Some(Err(SourceError::Opaque)),
            (None, None) => None,
        }
    }
}

/// How a source ended. An error of a pump that came in meanwhile is what is told: it is the cause
/// of whatever else went wrong.
pub fn source_result<E>(end: Result<(), SourceError<E>>, late_pump_error: Option<E>) -> (result:
    Result<(), SourceError<E>>)
    ensures
        result == (match late_pump_error {
            Some(error) => Err(SourceError::Pump(error)),
            None => end,
        }),
{
    match late_pump_error {
        Some(error) => Err(SourceError::Pump(error)),
        None => end,
    }
}

// ---------------------------------------------------------------------------------------------
// Sinks.
// ---------------------------------------------------------------------------------------------

/// A stage of the buffer in front of a sink.
pub enum BufferStage {
    Memory,
    DiskV2,
}

/// What the buffer in front of a sink is called, by its first stage.
pub fn buffer_type(stages: &Vec<BufferStage>) -> (name: &'static str)
    requires
        stages@.len() > 0,
    ensures
        name@ == (match stages@[0] {
            BufferStage::Memory => "memory"@,
            BufferStage::DiskV2 => "disk"@,
        }),
{
    match stages[0] {
        BufferStage::Memory => "memory",
        BufferStage::DiskV2 => "disk",
    }
}

/// What a healthcheck came to.
pub enum HealthcheckOutcome<E, T> {
    Passed,
    Failed(E),
    TimedOut(T),
}

/// Why a healthcheck task ended with an error.
pub enum HealthcheckError<E, T> {
    Failed(E),
    TimedOut(T),
}

/// Whether the healthcheck of a sink is made: both the sink and the configuration have to allow it.
pub fn healthcheck_enabled(of_sink: bool, of_config: bool) -> (enabled: bool)
    ensures
        enabled == (of_sink && of_config),
{
    of_sink && of_config
}

/// How a healthcheck task ends, given what the healthcheck came to, where it was made.
pub fn healthcheck_result<E, T>(outcome: Option<HealthcheckOutcome<E, T>>) -> (result: Result<
    (),
    HealthcheckError<E, T>,
>)
    ensures
        result == (match outcome {
            None => Ok(()),
            Some(HealthcheckOutcome::Passed) => Ok(()),
            Some(HealthcheckOutcome::Failed(error)) => Err(HealthcheckError::Failed(error)),
            Some(HealthcheckOutcome::TimedOut(error)) => Err(HealthcheckError::TimedOut(error)),
        }),
{
    match outcome {
        None => Ok(()),
        Some(HealthcheckOutcome::Passed) => Ok(()),
        Some(HealthcheckOutcome::Failed(error)) => Err(HealthcheckError::Failed(error)),
        Some(HealthcheckOutcome::TimedOut(error)) => Err(HealthcheckError::TimedOut(error)),
    }
}

// ---------------------------------------------------------------------------------------------
// Transforms.
// ---------------------------------------------------------------------------------------------

/// What a transform is run by.
pub struct TransformNode<I, O> {
    pub key: ComponentKey,
    pub typetag: String,
    pub inputs: Vec<OutputId>,
    pub input_details: I,
    pub outputs: Vec<O>,
    pub enable_concurrency: bool,
}

impl<I, O> TransformNode<I, O> {
    /// The node of a transform: its kind and its inputs are those that it is configured with.
    pub fn from_parts<D: Domain>(
        key: ComponentKey,
        transform: &TransformOuter<OutputId, D>,
        input_details: I,
        outputs: Vec<O>,
        enable_concurrency: bool,
    ) -> (node: Self)
        ensures
            node.key == key,
            node.typetag@ == transform.component_name@,
            node.inputs@ == transform.inputs@,
            node.input_details == input_details,
            node.outputs == outputs,
            node.enable_concurrency == enable_concurrency,
    {
        TransformNode {
            key,
            typetag: transform.component_name.clone(),
            inputs: clone_ids(&transform.inputs),
            input_details,
            outputs,
            enable_concurrency,
        }
    }
}

/// A transform that has been built.
pub enum Transform<F, S, T> {
    /// It works on one event after the other.
    Function(F),
    /// It works on one batch after the other.
    Synchronous(S),
    /// It works on the stream as a whole.
    Task(T),
}

/// How a transform is run.
#[derive(Debug, Clone, Copy, PartialEq, Eq, Structural)]
pub enum RunMode {
    /// One batch after the other.
    Inline,
    /// Several batches at once.
    Concurrent,
    /// The stream as a whole.
    Task,
}

/// Tells how a transform is run.
pub fn run_mode<F, S, T>(transform: &Transform<F, S, T>, enable_concurrency: bool) -> (mode:
    RunMode)
    ensures
        mode == (if transform is Task {
            RunMode::Task
        } else if enable_concurrency {
            RunMode::Concurrent
        } else {
            RunMode::Inline
        }),
{
    match transform {
        Transform::Task(_) => RunMode::Task,
        _ => if enable_concurrency {
            RunMode::Concurrent
        } else {
            RunMode::Inline
        },
    }
}

/// An output of a transform: the port that it stands behind, and the schemas of what it gives out.
pub struct TransformOutput<S> {
    pub port: Option<String>,
    pub log_schema_definitions: S,
}

/// The output at the position is the first that stands behind no port.
pub open spec fn is_default_output<S>(outputs: Seq<TransformOutput<S>>, at: int) -> bool {
    &&& 0 <= at < outputs.len()
    &&& outputs[at].port is None
    &&& forall|i: int| 0 <= i < at ==> #[trigger] outputs[i].port is Some
}

/// Finds the default output: a transform that works on the stream as a whole can give out nothing
/// elsewhere.
pub fn default_output<S>(outputs: &Vec<TransformOutput<S>>) -> (schemas: &S)
    requires
        exists|i: int| 0 <= i < outputs@.len() && #[trigger] outputs@[i].port is None,
    ensures
        exists|at: int| #[trigger]
            is_default_output(outputs@, at) && *schemas == outputs@[at].log_schema_definitions,
{
    let count: usize = outputs.len();
    let mut i: usize = 0;
    while outputs[i].port.is_some()
        invariant
            i < outputs@.len(),
            count == outputs@.len(),
            exists|j: int| 0 <= j < outputs@.len() && #[trigger] outputs@[j].port is None,
            forall|j: int| 0 <= j < i ==> #[trigger] outputs@[j].port is Some,
        decreases outputs@.len() - i,
    {
        i += 1;
    }
    assert(is_default_output(outputs@, i as int));
    &outputs[i].log_schema_definitions
}

/// How many events a list of batches holds.
pub open spec fn total_events<L, M, T>(batches: Seq<EventArray<L, M, T>>) -> nat
    decreases batches.len(),
{
    if batches.len() == 0 {
        0
    } else {
        total_events(batches.drop_last()) + event_count(batches.last())
    }
}

proof fn lemma_total_events<L, M, T>(batches: Seq<EventArray<L, M, T>>, i: int)
    requires
        0 <= i <= batches.len(),
    ensures
        total_events(batches.take(i)) <= total_events(batches),
    decreases batches.len() - i,
{
    if i < batches.len() {
        assert(batches.take(i + 1).drop_last() =~= batches.take(i));
        lemma_total_events(batches, i + 1);
    } else {
        assert(batches.take(i) =~= batches);
    }
}

/// How many events a list of batches holds: what the buffer for what comes of them starts with.
pub fn batch_len<L, M, T>(batches: &Vec<EventArray<L, M, T>>) -> (len: usize)
    requires
        total_events(batches@) <= usize::MAX,
    ensures
        len == total_events(batches@),
{
    let mut len: usize = 0;
    let mut i: usize = 0;
    assert(batches@.take(0).len() == 0);
    while i < batches.len()
        invariant
            i <= batches@.len(),
            len == total_events(batches@.take(i as int)),
            total_events(batches@) <= usize::MAX,
        decreases batches@.len() - i,
    {
        proof {
            assert(batches@.take(i + 1).drop_last() =~= batches@.take(i as int));
            lemma_total_events(batches@, i + 1);
        }
        len += batches[i].len();
        i += 1;
    }
    assert(batches@.take(batches@.len() as int) =~= batches@);
    len
}

/// What a transform that is run inline hears.
pub enum InlineEvent<L, M, T, E> {
    /// A batch came in.
    Received(EventArray<L, M, T>),
    /// What came of the last batch has been given out, or could not be.
    Sent(Result<(), E>),
    /// No batch will come in any more.
    Closed,
}

/// What a transform that is run inline does next.
pub enum InlineStep<L, M, T, E> {
    /// It waits for the next batch.
    Receive,
    /// It works on a batch, of so many events, and gives out what comes of it.
    Work { batch: EventArray<L, M, T>, len: usize },
    /// It ends.
    Stop(Result<(), E>),
}

/// What a transform that is run inline does next. A batch of events that it does not take is
/// dropped, and what cannot be given out ends it.
pub fn run_inline<L, M, T, E>(input_type: DataType, event: InlineEvent<L, M, T, E>) -> (step:
    InlineStep<L, M, T, E>)
    ensures
        match event {
            InlineEvent::Received(batch) => if type_contains(input_type, kind_of(batch)) {
                step matches InlineStep::Work { batch: taken, len } && taken == batch && len
                    == event_count(batch)
            } else {
                step is Receive
            },
            InlineEvent::Sent(Ok(())) => step is Receive,
            InlineEvent::Sent(Err(error)) => step == InlineStep::<L, M, T, E>::Stop(Err(error)),
            InlineEvent::Closed => step == InlineStep::<L, M, T, E>::Stop(Ok(())),
        },
{
    match event {
        InlineEvent::Received(batch) => if filter_events_type(&batch, input_type) {
            let len: usize = batch.len();
            InlineStep::Work { batch, len }
        } else {
            InlineStep::Receive
        },
        InlineEvent::Sent(Ok(())) => InlineStep::Receive,
        InlineEvent::Sent(Err(error)) => InlineStep::Stop(Err(error)),
        InlineEvent::Closed => InlineStep::Stop(Ok(())),
    }
}

/// The events of a list of batches can be counted part by part, and each batch counts for all its
/// events.
pub proof fn law_events_by_parts<L, M, T>(
    head: Seq<EventArray<L, M, T>>,
    tail: Seq<EventArray<L, M, T>>,
    batch: EventArray<L, M, T>,
)
    ensures
        total_events(head + tail) == total_events(head) + total_events(tail),
        total_events(seq![batch]) == (match batch {
            EventArray::Logs(logs) => logs@.len(),
            EventArray::Metrics(metrics) => metrics@.len(),
            EventArray::Traces(traces) => traces@.len(),
        }),
    decreases tail.len(),
{
    let one = seq![batch];
    assert(one.drop_last() =~= Seq::empty());
    assert(one.last() == batch);
    reveal_with_fuel(total_events, 2);
    if tail.len() > 0 {
        law_events_by_parts(head, tail.drop_last(), batch);
        assert((head + tail).drop_last() =~= head + tail.drop_last());
        assert((head + tail).last() == tail.last());
    } else {
        assert(head + tail =~= head);
    }
}

/// How a source ends, in the end. One that is told to shut down by force ends at once; else one of
/// which a pump failed ends with the error of the pump; else it ends as it ended itself; and as
/// long as none of these has happened, it does not end. An error of a pump that comes in late goes
/// before how it ended.
pub proof fn law_source_ends<E>(
    forced: bool,
    pump_error: Option<E>,
    server: Option<Result<(), ()>>,
    end: Option<Result<(), SourceError<E>>>,
    late_pump_error: Option<E>,
    result: Result<(), SourceError<E>>,
)
    requires
        call_ensures(select_source::<E>, (forced, pump_error, server), end),
        end matches Some(ended) ==> call_ensures(
            source_result::<E>,
            (ended, late_pump_error),
            result,
        ),
    ensures
        end is None <==> !forced && pump_error is None && server is None,
        end is Some && late_pump_error is Some ==> (result matches Err(SourceError::Pump(error))
            && Some(error) == late_pump_error),
        end is Some && late_pump_error is None && forced ==> result is Ok,
        end is Some && late_pump_error is None && !forced && pump_error is Some ==> (
        result matches Err(SourceError::Pump(error)) && Some(error) == pump_error),
        end is Some && late_pump_error is None && !forced && pump_error is None ==> match result {
            Ok(()) => server matches Some(Ok(_)),
            Err(SourceError::Opaque) => server matches Some(Err(_)),
            Err(SourceError::Pump(_)) => false,
        },
{
}

/// A transform that is run inline works on each batch of a kind that it takes, as it came and with
/// all its events counted, and passes over every other.
pub proof fn law_inline_batches<L, M, T, E>(
    input_type: DataType,
    batch: EventArray<L, M, T>,
    step: InlineStep<L, M, T, E>,
)
    requires
        call_ensures(
            run_inline::<L, M, T, E>,
            (input_type, InlineEvent::Received(batch)),
            step,
        ),
    ensures
        ({
            let (wanted, count) = match batch {
                EventArray::Logs(logs) => (input_type.log, logs@.len()),
                EventArray::Metrics(metrics) => (input_type.metric, metrics@.len()),
                EventArray::Traces(traces) => (input_type.trace, traces@.len()),
            };
            if wanted {
                step matches InlineStep::Work { batch: taken, len } && taken == batch && len
                    == count
            } else {
                step is Receive
            }
        }),
{
}

/// A pump passes on every batch that it receives, as it is. It waits for a batch exactly where the
/// last one was passed on, and ends exactly where one could not be, with that error, or where the
/// source gives out nothing any more.
pub proof fn law_pump<B, E>(input: PumpInput<B, E>, action: PumpAction<B, E>)
    requires
        call_ensures(run_pump::<B, E>, (input,), action),
    ensures
        input matches PumpInput::Received(batch) ==> (action matches PumpAction::Send(sent) && sent
            == batch),
        action is Send ==> input is Received,
        action is Receive <==> (input matches PumpInput::Sent(Ok(_))),
        input matches PumpInput::Sent(Err(error)) ==> (action matches PumpAction::Stop(Err(told))
            && told == error),
        input is Closed ==> (action matches PumpAction::Stop(Ok(_))),
{
}

/// The supervisor of pumps waits as long as pumps end well. The error of a pump goes to the source,
/// and never fails the supervisor; a pump that is lost does, and is not told to the source.
pub proof fn law_supervisor<E, J>(event: PumpEvent<E, J>, step: PumpStep<E, J>)
    requires
        call_ensures(supervise_pumps::<E, J>, (event,), step),
    ensures
        step is Wait <==> (event matches PumpEvent::Ended(Ok(_))),
        event matches PumpEvent::Ended(Err(error)) ==> (step matches PumpStep::Stop {
            report: Some(told),
            result: Ok(_),
        } && told == error),
        event matches PumpEvent::Lost(cause) ==> (step matches PumpStep::Stop {
            report: None,
            result: Err(told),
        } && told == cause),
        event is NoneLeft ==> (step matches PumpStep::Stop { report: None, result: Ok(_) }),
{
}

/// How large the buffers are: in front of the pump of a source there is room for a chunk from each
/// thread, of which there are as many as are set, or else as there are; and where several batches
/// are worked on, four chunks are taken in at once.
pub proof fn law_buffer_sizes(
    worker_threads: Option<usize>,
    num_threads: usize,
    limit: usize,
    chunk_size: usize,
    size: usize,
    capacity: usize,
)
    requires
        call_ensures(transform_concurrency_limit, (worker_threads, num_threads), limit),
        limit * chunk_size <= usize::MAX,
        chunk_size * 4 <= usize::MAX,
        call_ensures(source_sender_buffer_size, (limit, chunk_size), size),
        call_ensures(ready_array_capacity, (chunk_size,), capacity),
    ensures
        worker_threads matches Some(threads) ==> limit == threads && size == threads * chunk_size,
        worker_threads is None ==> limit == num_threads && size == num_threads * chunk_size,
        capacity == chunk_size + chunk_size + chunk_size + chunk_size,
        TOPOLOGY_BUFFER_SIZE == 100,
        INLINE_BATCH_SIZE == 128,
{
}

/// What the buffer in front of a sink is called depends on its first stage alone.
pub proof fn law_buffer_type(stages: Vec<BufferStage>, name: &'static str)
    requires
        stages@.len() > 0,
        call_ensures(buffer_type, (&stages,), name),
    ensures
        stages@[0] is Memory ==> name@ == "memory"@,
        stages@[0] is DiskV2 ==> name@ == "disk"@,
{
}

/// A healthcheck is made only where both the sink and the configuration allow it. A task whose
/// healthcheck was not made, or passed, ends well; else it ends with what went wrong.
pub proof fn law_healthchecks<E, T>(
    of_sink: bool,
    of_config: bool,
    enabled: bool,
    outcome: Option<HealthcheckOutcome<E, T>>,
    result: Result<(), HealthcheckError<E, T>>,
)
    requires
        call_ensures(healthcheck_enabled, (of_sink, of_config), enabled),
        call_ensures(healthcheck_result::<E, T>, (outcome,), result),
    ensures
        !enabled <==> !of_sink || !of_config,
        result is Ok <==> outcome is None || (outcome matches Some(HealthcheckOutcome::Passed)),
        outcome matches Some(HealthcheckOutcome::Failed(error)) ==> (result matches Err(
            HealthcheckError::Failed(told),
        ) && told == error),
        outcome matches Some(HealthcheckOutcome::TimedOut(error)) ==> (result matches Err(
            HealthcheckError::TimedOut(told),
        ) && told == error),
{
}

/// The node of a transform has its name, its kind and its inputs, one by one.
pub proof fn law_node<I, O, D: Domain>(
    key: ComponentKey,
    transform: TransformOuter<OutputId, D>,
    input_details: I,
    outputs: Vec<O>,
    enable_concurrency: bool,
    node: TransformNode<I, O>,
)
    requires
        call_ensures(
            TransformNode::<I, O>::from_parts::<D>,
            (key, &transform, input_details, outputs, enable_concurrency),
            node,
        ),
    ensures
        node.key@ == key@,
        node.typetag@ == transform.component_name@,
        node.inputs@.len() == transform.inputs@.len(),
        forall|i: int|
            0 <= i < node.inputs@.len() ==> (#[trigger] node.inputs@[i]).component@
                == transform.inputs@[i].component@ && opt_text(node.inputs@[i].port) == opt_text(
                transform.inputs@[i].port,
            ),
        node.input_details == input_details,
        node.outputs@ == outputs@,
        node.enable_concurrency == enable_concurrency,
{
}

/// Only a transform that works on batches is ever run on several of them at once, and only where
/// that is asked for.
pub proof fn law_run_modes<F, S, T>(
    transform: Transform<F, S, T>,
    enable_concurrency: bool,
    mode: RunMode,
)
    requires
        call_ensures(run_mode::<F, S, T>, (&transform, enable_concurrency), mode),
    ensures
        mode == RunMode::Task <==> (transform matches Transform::Task(_)),
        mode == RunMode::Concurrent <==> enable_concurrency && !(transform is Task),
        mode == RunMode::Inline <==> !enable_concurrency && (transform is Function
            || transform is Synchronous),
{
}

/// The default output is the first that stands behind no port, whatever comes before or after it.
pub proof fn law_default_output<S>(outputs: Vec<TransformOutput<S>>, schemas: &S, at: int)
    requires
        0 <= at < outputs@.len(),
        outputs@[at].port is None,
        forall|i: int| 0 <= i < at ==> !(#[trigger] outputs@[i].port is None),
        call_ensures(default_output::<S>, (&outputs,), schemas),
    ensures
        *schemas == outputs@[at].log_schema_definitions,
{
    let other = choose|other: int| #[trigger]
        is_default_output(outputs@, other) && *schemas == outputs@[other].log_schema_definitions;
    if other < at {
        assert(!(outputs@[other].port is None));
    } else if at < other {
        assert(outputs@[at].port is Some);
    }
}

} // verus!
