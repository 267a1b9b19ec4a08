//! A service that hands records to a producer, and holds back while the producer is full.

use bytes::Bytes;
use rand::rngs::SmallRng;
use vstd::arithmetic::power::pow;
use vstd::prelude::*;

use crate::kafka::backoff::{
    after_delay, after_delays, law_delay_is_limited, law_delays, lemma_pow_step, next_delay,
    ExponentialBackoff,
};

verus! {

// ---------------------------------------------------------------------------------------------
// Outside types and calls.
// ---------------------------------------------------------------------------------------------

#[verifier::external_type_specification]
#[verifier::external_body]
pub struct ExBytes(bytes::Bytes);

#[verifier::external_type_specification]
#[verifier::external_body]
pub struct ExSmallRng(rand::rngs::SmallRng);

/// The bytes that a `bytes::Bytes` holds.
pub uninterp spec fn bytes_content(bytes: Bytes) -> Seq<u8>;

/// `Bytes::len`: how many bytes there are.
#[verifier::external_body]
fn bytes_len(bytes: &Bytes) -> (len: usize)
    ensures
        len == bytes_content(*bytes).len(),
{
    bytes.len()
}

/// `Rng::random_range`, on the numbers from one to `max`: some number of them. Which one it is
/// depends on chance, and nothing is said of it.
#[verifier::external_body]
fn random_up_to(rng: &mut SmallRng, max: u64) -> (number: u64)
    requires
        max >= 1,
    ensures
        1 <= number <= max,
{
    rand::Rng::random_range(rng, 1..=max)
}

// ---------------------------------------------------------------------------------------------
// Requests and responses.
// ---------------------------------------------------------------------------------------------

/// What has to be told of the fate of events.
pub struct EventFinalizers<F> {
    pub finalizers: Vec<F>,
}

/// What goes with the body of a record.
pub struct KafkaRequestMetadata<F, H> {
    pub finalizers: EventFinalizers<F>,
    pub key: Option<Bytes>,
    pub timestamp_millis: Option<i64>,
    pub headers: Option<H>,
    pub topic: String,
}

/// A record that is to be produced.
pub struct KafkaRequest<F, H, M> {
    pub body: Bytes,
    pub metadata: KafkaRequestMetadata<F, H>,
    pub request_metadata: M,
}

impl<F, H, M> KafkaRequest<F, H, M> {
    /// Takes out what has to be told of the fate of events, and leaves nothing to tell.
    pub fn take_finalizers(&mut self) -> (finalizers: EventFinalizers<F>)
        ensures
            finalizers == old(self).metadata.finalizers,
            final(self).metadata.finalizers.finalizers@ == Seq::<F>::empty(),
            final(self).metadata.key == old(self).metadata.key,
            final(self).metadata.timestamp_millis == old(self).metadata.timestamp_millis,
            final(self).metadata.headers == old(self).metadata.headers,
            final(self).metadata.topic == old(self).metadata.topic,
            final(self).body == old(self).body,
            final(self).request_metadata == old(self).request_metadata,
    {
        let mut finalizers = EventFinalizers { finalizers: Vec::new() };
        std::mem::swap(&mut finalizers, &mut self.metadata.finalizers);
        finalizers
    }

    /// The metadata of the request.
    pub fn get_metadata(&self) -> (metadata: &M)
        ensures
            *metadata == self.request_metadata,
    {
        &self.request_metadata
    }

    /// The metadata of the request, to be changed.
    pub fn metadata_mut(&mut self) -> (metadata: &mut M)
        ensures
            *metadata == old(self).request_metadata,
            *final(self) == (KafkaRequest { request_metadata: *final(metadata), ..*old(self) }),
    {
        &mut self.request_metadata
    }
}

/// What became of the events of a record.
#[derive(Debug, Clone, Copy, PartialEq, Eq, Structural)]
pub enum EventStatus {
    Delivered,
    Errored,
}

/// What a request is answered.
pub struct KafkaResponse<C> {
    pub event_byte_size: C,
    pub raw_byte_size: usize,
    pub event_status: EventStatus,
}

impl<C> KafkaResponse<C> {
    /// What became of the events.
    pub fn event_status(&self) -> (status: EventStatus)
        ensures
            status == self.event_status,
    {
        self.event_status
    }

    /// How many events were sent, and how large they were.
    pub fn events_sent(&self) -> (sent: &C)
        ensures
            *sent == self.event_byte_size,
    {
        &self.event_byte_size
    }

    /// How many bytes were sent.
    pub fn bytes_sent(&self) -> (sent: Option<usize>)
        ensures
            sent == Some(self.raw_byte_size),
    {
        Some(self.raw_byte_size)
    }
}

/// How many bytes a record has: those of its body and those of its key.
pub open spec fn raw_size(body: Bytes, key: Option<Bytes>) -> nat {
    bytes_content(body).len() + match key {
        Some(key) => bytes_content(key).len(),
        None => 0,
    }
}

/// How many bytes a key has.
fn key_len(key: &Option<Bytes>) -> (len: usize)
    ensures
        len == (match *key {
            Some(key) => bytes_content(key).len(),
            None => 0,
        }),
{
    match key {
        Some(key) => bytes_len(key),
        None => 0,
    }
}

/// A record as the producer takes it.
pub struct KafkaRecord<H> {
    pub topic: String,
    pub payload: Bytes,
    pub key: Option<Bytes>,
    pub timestamp: Option<i64>,
    pub headers: Option<H>,
}

// ---------------------------------------------------------------------------------------------
// Records that the producer has no room for.
// ---------------------------------------------------------------------------------------------

/// How many records are blocked from being enqueued on the producer.
#[derive(Debug, Clone, Copy, PartialEq, Eq, Structural)]
pub struct BlockedRecordNotifier {
    pub records_blocked: usize,
}

/// A record that is blocked from being enqueued on the producer.
pub struct BlockedRecordState {
    _blocked: (),
}

/// One record more is blocked.
pub open spec fn one_more(count: usize) -> usize {
    if count == usize::MAX {
        0
    } else {
        (count + 1) as usize
    }
}

/// One record less is blocked.
pub open spec fn one_less(count: usize) -> usize {
    if count == 0 {
        usize::MAX
    } else {
        (count - 1) as usize
    }
}

impl BlockedRecordNotifier {
    /// No record is blocked.
    pub fn new() -> (notifier: BlockedRecordNotifier)
        ensures
            notifier.records_blocked == 0,
    {
        BlockedRecordNotifier { records_blocked: 0 }
    }
}

impl BlockedRecordState {
    /// A record becomes blocked.
    pub fn new(shared: &mut BlockedRecordNotifier) -> (state: BlockedRecordState)
        ensures
            final(shared).records_blocked == one_more(old(shared).records_blocked),
    {
        shared.records_blocked = shared.records_blocked.wrapping_add(1);
        BlockedRecordState { _blocked: () }
    }

    /// A record is blocked no longer. Tells whether it was the last one: the service is then woken,
    /// so that it can take requests again at once.
    pub fn release(self, shared: &mut BlockedRecordNotifier) -> (wake: bool)
        ensures
            final(shared).records_blocked == one_less(old(shared).records_blocked),
            wake == (old(shared).records_blocked == 1),
    {
        let previous: usize = shared.records_blocked;
        shared.records_blocked = previous.wrapping_sub(1);
        previous == 1
    }
}

/// Whether a service takes requests.
#[derive(Debug, Clone, Copy, PartialEq, Eq, Structural)]
pub enum Readiness {
    Ready,
    Pending,
}

// ---------------------------------------------------------------------------------------------
// What the producer says.
// ---------------------------------------------------------------------------------------------

/// Why a producer does not take a record.
#[derive(Debug, Clone, Copy, PartialEq, Eq, Structural)]
pub enum ProduceErrorCode {
    QueueFull,
    PolicyViolation,
    InvalidMessage,
    InvalidMessageSize,
    MessageSizeTooLarge,
    UnknownTopicOrPartition,
    InvalidRecord,
    InvalidRequiredAcks,
    TopicAuthorizationFailed,
    UnsupportedForMessageFormat,
    ClusterAuthorizationFailed,
    /// Any other code.
    Other,
}

/// What follows on a refusal.
#[derive(Debug, Clone, Copy, PartialEq, Eq, Structural)]
pub enum Refusal {
    /// The producer is full or a policy is violated for now: the record is offered again.
    Retry,
    /// The record will never be taken: the caller is told.
    Final,
    /// Something else went wrong: the events are marked as failed.
    Errored,
}

/// What follows on a refusal, by its code. An error that is not about producing a message has none.
pub open spec fn refusal_of(code: Option<ProduceErrorCode>) -> Refusal {
    match code {
        Some(ProduceErrorCode::QueueFull) => Refusal::Retry,
        Some(ProduceErrorCode::PolicyViolation) => Refusal::Retry,
        Some(ProduceErrorCode::Other) => Refusal::Errored,
        Some(_) => Refusal::Final,
        None => Refusal::Errored,
    }
}

/// Tells what follows on a refusal.
pub fn classify_refusal(code: Option<ProduceErrorCode>) -> (refusal: Refusal)
    ensures
        refusal == refusal_of(code),
{
    match code {
        Some(ProduceErrorCode::QueueFull) => Refusal::Retry,
        Some(ProduceErrorCode::PolicyViolation) => Refusal::Retry,
        Some(ProduceErrorCode::Other) => Refusal::Errored,
        Some(_) => Refusal::Final,
        None => Refusal::Errored,
    }
}

/// What the producer says when it is offered a record.
pub enum SendOutcome<E> {
    /// The record was enqueued.
    Enqueued,
    /// The record was not enqueued, for the reason given.
    Refused { code: Option<ProduceErrorCode>, error: E },
}

// ---------------------------------------------------------------------------------------------
// The service.
// ---------------------------------------------------------------------------------------------

/// The greatest number of milliseconds that a delay is lengthened by: about a fifth of it.
pub open spec fn max_jitter(base_delay: u64) -> int {
    base_delay as int / 5 + 1
}

/// The backoff that every request starts with.
pub open spec fn fresh_backoff() -> ExponentialBackoff {
    ExponentialBackoff { current: 2, base: 2, factor: 5, max_delay: Some(100) }
}

/// A delay with its jitter. Requests that were refused at one time are so spread out.
pub fn jittered(base_delay: u64, jitter: u64) -> (millis: u64)
    requires
        base_delay + jitter <= u64::MAX,
    ensures
        millis == base_delay + jitter,
{
    base_delay + jitter
}

/// A request on its way to the producer.
pub struct KafkaCall<C> {
    event_byte_size: C,
    raw_byte_size: usize,
    no_events: C,
    blocked: Option<BlockedRecordState>,
    backoff: ExponentialBackoff,
}

pub struct KafkaCallView<C> {
    pub event_byte_size: C,
    pub raw_byte_size: usize,
    pub no_events: C,
    pub blocked: bool,
    pub backoff: ExponentialBackoff,
}

impl<C> View for KafkaCall<C> {
    type V = KafkaCallView<C>;

    closed spec fn view(&self) -> KafkaCallView<C> {
        KafkaCallView {
            event_byte_size: self.event_byte_size,
            raw_byte_size: self.raw_byte_size,
            no_events: self.no_events,
            blocked: self.blocked is Some,
            backoff: self.backoff,
        }
    }
}

/// A record that was enqueued and is waited for.
pub struct Delivery<C> {
    pub event_byte_size: C,
    pub raw_byte_size: usize,
}

impl<C> Delivery<C> {
    /// How a request is answered, given what became of its record.
    pub fn answer<E>(self, delivered: Result<(), E>) -> (result: Result<KafkaResponse<C>, E>)
        ensures
            result == (match delivered {
                Ok(()) => Ok(
                    KafkaResponse {
                        event_byte_size: self.event_byte_size,
                        raw_byte_size: self.raw_byte_size,
                        event_status: EventStatus::Delivered,
                    },
                ),
                Err(error) => Err(error),
            }),
    {
        match delivered {
            Ok(()) => Ok(
                KafkaResponse {
                    event_byte_size: self.event_byte_size,
                    raw_byte_size: self.raw_byte_size,
                    event_status: EventStatus::Delivered,
                },
            ),
            Err(error) => Err(error),
        }
    }
}

/// What is done with a request next.
pub enum CallStep<C, E> {
    /// The record was enqueued, and what becomes of it is waited for.
    Await(Delivery<C>),
    /// After so many milliseconds the same record is offered again.
    Retry { call: KafkaCall<C>, sleep_millis: u64 },
    /// The request is answered.
    Answer(Result<KafkaResponse<C>, E>),
}

/// What is done with a request next, given what the producer said. The delay before the next
/// attempt depends on chance, within its bounds.
pub open spec fn is_next_step<C, E>(
    call: KafkaCallView<C>,
    outcome: SendOutcome<E>,
    step: CallStep<C, E>,
) -> bool {
    match outcome {
        SendOutcome::Enqueued => step == CallStep::<C, E>::Await(
            Delivery { event_byte_size: call.event_byte_size, raw_byte_size: call.raw_byte_size },
        ),
        SendOutcome::Refused { code, error } => match refusal_of(code) {
            Refusal::Retry => {
                let base_delay = next_delay(call.backoff);
                &&& step is Retry
                &&& step->call@ == (KafkaCallView {
                    blocked: true,
                    backoff: after_delay(call.backoff),
                    ..call
                })
                &&& base_delay + 1 <= step->sleep_millis <= base_delay + max_jitter(base_delay)
            },
            Refusal::Final => step == CallStep::<C, E>::Answer(Err(error)),
            Refusal::Errored => step == CallStep::<C, E>::Answer(
                Ok(
                    KafkaResponse {
                        event_byte_size: call.no_events,
                        raw_byte_size: 0,
                        event_status: EventStatus::Errored,
                    },
                ),
            ),
        },
    }
}

/// The record is offered again.
pub open spec fn is_retried<E>(outcome: SendOutcome<E>) -> bool {
    match outcome {
        SendOutcome::Enqueued => false,
        SendOutcome::Refused { code, .. } => refusal_of(code) == Refusal::Retry,
    }
}

/// How many records are blocked after an attempt. A record counts from the first time that it has
/// to be offered again, until it is enqueued or given up.
pub open spec fn blocked_after(count: usize, blocked: bool, retried: bool) -> usize {
    if retried && !blocked {
        one_more(count)
    } else if !retried && blocked {
        one_less(count)
    } else {
        count
    }
}

impl<C> KafkaCall<C> {
    /// The delays of a request are limited.
    #[verifier::type_invariant]
    spec fn inv(self) -> bool {
        self.backoff.max_delay == Some(100u64)
    }

    /// What is done next, given what the producer said to the record. Tells also whether the
    /// service has to be woken.
    pub fn sent<E>(
        self,
        service: &mut KafkaService,
        rng: &mut SmallRng,
        outcome: SendOutcome<E>,
    ) -> (result: (CallStep<C, E>, bool))
        ensures
            is_next_step(self@, outcome, result.0),
            final(service).shared.records_blocked == blocked_after(
                old(service).shared.records_blocked,
                self@.blocked,
                is_retried(outcome),
            ),
            result.1 == (self@.blocked && !is_retried(outcome)
                && old(service).shared.records_blocked == 1),
    {
        proof {
            use_type_invariant(&self);
        }
        let KafkaCall { event_byte_size, raw_byte_size, no_events, blocked, mut backoff } = self;
        let refused: Option<(Refusal, E)> = match outcome {
            SendOutcome::Enqueued => None,
            SendOutcome::Refused { code, error } => Some((classify_refusal(code), error)),
        };
        match refused {
            Some((Refusal::Retry, _)) => {
                let blocked = match blocked {
                    Some(state) => Some(state),
                    None => Some(BlockedRecordState::new(&mut service.shared)),
                };
                proof {
                    law_delay_is_limited(backoff);
                }
                let base_delay: u64 = match backoff.next() {
                    Some(delay) => delay,
                    None => 100,
                };
                let jitter: u64 = random_up_to(rng, base_delay / 5 + 1);
                let call = KafkaCall {
                    event_byte_size,
                    raw_byte_size,
                    no_events,
                    blocked,
                    backoff,
                };
                (CallStep::Retry { call, sleep_millis: jittered(base_delay, jitter) }, false)
            },
            other => {
                let wake: bool = match blocked {
                    Some(state) => state.release(&mut service.shared),
                    None => false,
                };
                let step = match other {
                    None => CallStep::Await(Delivery { event_byte_size, raw_byte_size }),
                    Some((Refusal::Final, error)) => CallStep::Answer(Err(error)),
                    Some((_, _)) => CallStep::Answer(
                        Ok(
                            KafkaResponse {
                                event_byte_size: no_events,
                                raw_byte_size: 0,
                                event_status: EventStatus::Errored,
                            },
                        ),
                    ),
                };
                (step, wake)
            },
        }
    }

    /// The request is given up before the producer has taken its record, as where nobody waits for
    /// the answer any more. The record is blocked no longer. Tells whether the service has to be
    /// woken.
    pub fn give_up(self, service: &mut KafkaService) -> (wake: bool)
        ensures
            final(service).shared.records_blocked == blocked_after(
                old(service).shared.records_blocked,
                self@.blocked,
                false,
            ),
            wake == (self@.blocked && old(service).shared.records_blocked == 1),
    {
        match self.blocked {
            Some(state) => state.release(&mut service.shared),
            None => false,
        }
    }
}

/// Takes requests for a producer, and takes none while any record is blocked.
pub struct KafkaService {
    pub shared: BlockedRecordNotifier,
}

impl KafkaService {
    /// A service of which no record is blocked.
    pub fn new() -> (service: KafkaService)
        ensures
            service.shared.records_blocked == 0,
    {
        KafkaService { shared: BlockedRecordNotifier::new() }
    }

    /// Tells whether the service takes requests. It is at capacity while any record is blocked
    /// from being enqueued on the producer.
    pub fn poll_ready(&self) -> (readiness: Readiness)
        ensures
            readiness == (if self.shared.records_blocked > 0 {
                Readiness::Pending
            } else {
                Readiness::Ready
            }),
    {
        if self.shared.records_blocked > 0 {
            Readiness::Pending
        } else {
            Readiness::Ready
        }
    }

    /// Takes a request: says which record is offered to the producer, and keeps what the answer
    /// needs. `no_events` is what is said to be sent where nothing was.
    pub fn call<F, H, M, C>(
        &self,
        request: KafkaRequest<F, H, M>,
        event_byte_size: C,
        no_events: C,
    ) -> (result: (KafkaCall<C>, KafkaRecord<H>))
        requires
            raw_size(request.body, request.metadata.key) <= usize::MAX,
        ensures
            result.0@ == (KafkaCallView {
                event_byte_size,
                raw_byte_size: raw_size(request.body, request.metadata.key) as usize,
                no_events,
                blocked: false,
                backoff: fresh_backoff(),
            }),
            result.1 == (KafkaRecord {
                topic: request.metadata.topic,
                payload: request.body,
                key: request.metadata.key,
                timestamp: request.metadata.timestamp_millis,
                headers: request.metadata.headers,
            }),
    {
        let raw_byte_size: usize = bytes_len(&request.body) + key_len(&request.metadata.key);
        let backoff = ExponentialBackoff::from_millis(2).factor(5).max_delay(100);
        let call = KafkaCall { event_byte_size, raw_byte_size, no_events, blocked: None, backoff };
        let record = KafkaRecord {
            topic: request.metadata.topic,
            payload: request.body,
            key: request.metadata.key,
            timestamp: request.metadata.timestamp_millis,
            headers: request.metadata.headers,
        };
        (call, record)
    }

    /// Takes a request, where the bytes of its record can be counted; else hands it back.
    pub fn try_call<F, H, M, C>(
        &self,
        request: KafkaRequest<F, H, M>,
        event_byte_size: C,
        no_events: C,
    ) -> (result: Result<(KafkaCall<C>, KafkaRecord<H>), KafkaRequest<F, H, M>>)
        ensures
            match result {
                Ok((call, record)) => {
                    &&& raw_size(request.body, request.metadata.key) <= usize::MAX
                    &&& call@ == (KafkaCallView {
                        event_byte_size,
                        raw_byte_size: raw_size(request.body, request.metadata.key) as usize,
                        no_events,
                        blocked: false,
                        backoff: fresh_backoff(),
                    })
                    &&& record == (KafkaRecord {
                        topic: request.metadata.topic,
                        payload: request.body,
                        key: request.metadata.key,
                        timestamp: request.metadata.timestamp_millis,
                        headers: request.metadata.headers,
                    })
                },
                Err(back) => raw_size(request.body, request.metadata.key) > usize::MAX && back
                    == request,
            },
    {
        match bytes_len(&request.body).checked_add(key_len(&request.metadata.key)) {
            Some(_) => Ok(self.call(request, event_byte_size, no_events)),
            None => Err(request),
        }
    }
}

// ---------------------------------------------------------------------------------------------
// What holds of blocked records.
// ---------------------------------------------------------------------------------------------

/// How many records are blocked after a record was offered `attempts` times and had to be offered
/// again each time, where `count` others were blocked before.
pub open spec fn blocked_after_retries(count: usize, attempts: nat) -> usize
    decreases attempts,
{
    if attempts == 0 {
        count
    } else {
        blocked_after(
            blocked_after_retries(count, (attempts - 1) as nat),
            attempts > 1,
            true,
        )
    }
}

/// A record counts as blocked once, however often it is offered; and once it is enqueued or given
/// up, it counts no more.
pub proof fn law_counts_once(count: usize, attempts: nat)
    ensures
        blocked_after_retries(count, attempts) == (if attempts == 0 {
            count
        } else {
            one_more(count)
        }),
        blocked_after(blocked_after_retries(count, attempts), attempts > 0, false) == count,
    decreases attempts,
{
    if attempts > 0 {
        law_counts_once(count, (attempts - 1) as nat);
    }
}

/// What happens to the records of a service: one becomes blocked, or one is blocked no longer.
pub enum BlockEvent {
    Blocked,
    Released,
}

/// How many records are blocked after a list of events.
pub open spec fn blocked_count(events: Seq<BlockEvent>) -> usize
    decreases events.len(),
{
    if events.len() == 0 {
        0
    } else {
        match events.last() {
            BlockEvent::Blocked => one_more(blocked_count(events.drop_last())),
            BlockEvent::Released => one_less(blocked_count(events.drop_last())),
        }
    }
}

/// How many records are out: those that became blocked and have not been released.
pub open spec fn outstanding(events: Seq<BlockEvent>) -> int
    decreases events.len(),
{
    if events.len() == 0 {
        0
    } else {
        outstanding(events.drop_last()) + match events.last() {
            BlockEvent::Blocked => 1int,
            BlockEvent::Released => -1int,
        }
    }
}

/// No record is released that was not blocked, and there are never more than can be counted.
pub open spec fn in_bounds(events: Seq<BlockEvent>) -> bool
    decreases events.len(),
{
    0 <= outstanding(events) <= usize::MAX && (events.len() > 0 ==> in_bounds(events.drop_last()))
}

/// The count is that of the records that are out, so the service takes requests exactly when none
/// is; and it is woken exactly when the last one is released.
pub proof fn law_count_is_outstanding(events: Seq<BlockEvent>)
    requires
        in_bounds(events),
    ensures
        blocked_count(events) == outstanding(events),
        events.len() > 0 && events.last() is Released ==> ((blocked_count(events.drop_last())
            == 1) == (outstanding(events) == 0)),
    decreases events.len(),
{
    if events.len() > 0 {
        law_count_is_outstanding(events.drop_last());
    }
}

/// The delay before the attempt that follows on `n` others, without jitter: ten milliseconds first,
/// then twice the one before, and a hundred at most.
pub proof fn law_retry_delays(n: nat)
    ensures
        next_delay(after_delays(fresh_backoff(), n)) == (if 10 * pow(2, n) > 100 {
            100
        } else {
            10 * pow(2, n)
        }),
{
    law_delays(fresh_backoff(), n);
    lemma_pow_step(2, n);
}

/// The attempts at a record that is refused, and offered again, each time.
pub open spec fn are_retries<C, E>(
    calls: Seq<KafkaCallView<C>>,
    outcomes: Seq<SendOutcome<E>>,
    steps: Seq<CallStep<C, E>>,
) -> bool {
    &&& calls.len() == outcomes.len()
    &&& calls.len() == steps.len()
    &&& calls.len() > 0 ==> calls[0].backoff == fresh_backoff()
    &&& forall|i: int| 0 <= i < calls.len() ==> is_retried(#[trigger] outcomes[i])
    &&& forall|i: int|
        0 <= i < calls.len() ==> #[trigger] is_next_step(calls[i], outcomes[i], steps[i])
    &&& forall|i: int|
        0 <= i < calls.len() - 1 ==> #[trigger] next_call(steps[i]) == calls[i + 1]
}

/// A record that is refused again and again is offered at delays that double from ten milliseconds
/// to a hundred, each longer by one millisecond at least and by about a fifth at most.
pub proof fn law_retry_sleeps<C, E>(
    calls: Seq<KafkaCallView<C>>,
    outcomes: Seq<SendOutcome<E>>,
    steps: Seq<CallStep<C, E>>,
    n: nat,
)
    requires
        n < calls.len(),
        are_retries(calls, outcomes, steps),
    ensures
        ({
            let delay = if 10 * pow(2, n) > 100 {
                100
            } else {
                10 * pow(2, n)
            };
            delay + 1 <= steps[n as int]->sleep_millis <= delay + delay / 5 + 1
        }),
{
    lemma_backoff_after(calls, outcomes, steps, n);
    law_retry_delays(n);
    assert(is_next_step(calls[n as int], outcomes[n as int], steps[n as int]));
}

/// The request that is left where a record is offered again.
pub open spec fn next_call<C, E>(step: CallStep<C, E>) -> KafkaCallView<C> {
    step->call@
}

proof fn lemma_backoff_after<C, E>(
    calls: Seq<KafkaCallView<C>>,
    outcomes: Seq<SendOutcome<E>>,
    steps: Seq<CallStep<C, E>>,
    n: nat,
)
    requires
        n < calls.len(),
        are_retries(calls, outcomes, steps),
    ensures
        calls[n as int].backoff == after_delays(fresh_backoff(), n),
    decreases n,
{
    if n > 0 {
        lemma_backoff_after(calls, outcomes, steps, (n - 1) as nat);
        assert(is_next_step(calls[n - 1], outcomes[n - 1], steps[n - 1]));
        assert(next_call(steps[n - 1]) == calls[n as int]);
    }
}

// ---------------------------------------------------------------------------------------------
// What holds of a request as a whole.
// ---------------------------------------------------------------------------------------------

/// The record that is offered to the producer holds what the request holds.
pub proof fn law_record_is_the_request<F, H, M, C>(
    service: KafkaService,
    request: KafkaRequest<F, H, M>,
    event_byte_size: C,
    no_events: C,
    call: KafkaCall<C>,
    record: KafkaRecord<H>,
)
    requires
        call_ensures(
            KafkaService::call::<F, H, M, C>,
            (&service, request, event_byte_size, no_events),
            (call, record),
        ),
    ensures
        record.topic == request.metadata.topic,
        bytes_content(record.payload) == bytes_content(request.body),
        record.key == request.metadata.key,
        record.timestamp == request.metadata.timestamp_millis,
        record.headers == request.metadata.headers,
{
}

/// The producer has no room for the record for now.
pub open spec fn is_full<E>(outcome: SendOutcome<E>) -> bool {
    outcome matches SendOutcome::Refused { code: Some(code), .. } && (code
        == ProduceErrorCode::QueueFull || code == ProduceErrorCode::PolicyViolation)
}

/// The attempts at a record: each follows on the one before, and before the last one the producer
/// had no room for the record.
pub open spec fn are_attempts<C, E>(
    calls: Seq<KafkaCallView<C>>,
    outcomes: Seq<SendOutcome<E>>,
    steps: Seq<CallStep<C, E>>,
) -> bool {
    &&& calls.len() > 0
    &&& calls.len() == outcomes.len()
    &&& calls.len() == steps.len()
    &&& forall|i: int| 0 <= i < calls.len() - 1 ==> is_full(#[trigger] outcomes[i])
    &&& forall|i: int|
        0 <= i < calls.len() ==> #[trigger] is_next_step(calls[i], outcomes[i], steps[i])
    &&& forall|i: int|
        0 <= i < calls.len() - 1 ==> #[trigger] next_call(steps[i]) == calls[i + 1]
}

proof fn lemma_sizes_are_kept<C, E>(
    calls: Seq<KafkaCallView<C>>,
    outcomes: Seq<SendOutcome<E>>,
    steps: Seq<CallStep<C, E>>,
    i: int,
)
    requires
        are_attempts(calls, outcomes, steps),
        0 <= i < calls.len(),
    ensures
        calls[i].raw_byte_size == calls[0].raw_byte_size,
        calls[i].event_byte_size == calls[0].event_byte_size,
        calls[i].no_events == calls[0].no_events,
        i > 0 ==> calls[i].blocked,
        i < calls.len() - 1 ==> steps[i] is Retry,
    decreases i,
{
    assert(is_next_step(calls[i], outcomes[i], steps[i]));
    if i < calls.len() - 1 {
        assert(is_full(outcomes[i]));
    }
    if i > 0 {
        lemma_sizes_are_kept(calls, outcomes, steps, i - 1);
        assert(is_full(outcomes[i - 1]));
        assert(is_next_step(calls[i - 1], outcomes[i - 1], steps[i - 1]));
        assert(next_call(steps[i - 1]) == calls[i]);
    }
}

/// However often a record has to be offered, a request whose record is delivered is answered with
/// the bytes of its body, and with those of its key where it has one, and with the sizes of its
/// events.
pub proof fn law_delivered_sizes<F, H, M, C, E>(
    service: KafkaService,
    request: KafkaRequest<F, H, M>,
    event_byte_size: C,
    no_events: C,
    call: KafkaCall<C>,
    record: KafkaRecord<H>,
    calls: Seq<KafkaCallView<C>>,
    outcomes: Seq<SendOutcome<E>>,
    steps: Seq<CallStep<C, E>>,
    response: KafkaResponse<C>,
    sent: Option<usize>,
)
    requires
        call_ensures(
            KafkaService::call::<F, H, M, C>,
            (&service, request, event_byte_size, no_events),
            (call, record),
        ),
        calls.len() > 0,
        calls[0] == call@,
        are_attempts(calls, outcomes, steps),
        outcomes.last() is Enqueued,
        bytes_content(request.body).len() <= usize::MAX,
        request.metadata.key matches Some(key) ==> bytes_content(request.body).len()
            + bytes_content(key).len() <= usize::MAX,
        steps.last() matches CallStep::Await(delivery) ==> call_ensures(
            Delivery::<C>::answer::<E>,
            (delivery, Ok(())),
            Ok(response),
        ),
        call_ensures(KafkaResponse::<C>::bytes_sent, (&response,), sent),
    ensures
        steps.last() is Await,
        sent matches Some(bytes) && bytes == (match request.metadata.key {
            Some(key) => bytes_content(request.body).len() + bytes_content(key).len(),
            None => bytes_content(request.body).len(),
        }) && bytes >= bytes_content(request.body).len(),
        response.event_byte_size == event_byte_size,
        response.event_status == EventStatus::Delivered,
{
    let last = calls.len() - 1;
    lemma_sizes_are_kept(calls, outcomes, steps, last);
    assert(is_next_step(calls[last], outcomes[last], steps[last]));
    assert(outcomes[last] == outcomes.last());
    assert(steps[last] == steps.last());
}

/// However often a record has to be offered, a request whose record is refused for good is answered
/// with the reason, where it lies in the record or in its topic; else its events are marked as
/// failed, and nothing is said to have been sent.
pub proof fn law_refused_answers<C, E>(
    calls: Seq<KafkaCallView<C>>,
    outcomes: Seq<SendOutcome<E>>,
    steps: Seq<CallStep<C, E>>,
    code: Option<ProduceErrorCode>,
    error: E,
)
    requires
        are_attempts(calls, outcomes, steps),
        outcomes.last() == (SendOutcome::Refused { code, error }),
        code != Some(ProduceErrorCode::QueueFull),
        code != Some(ProduceErrorCode::PolicyViolation),
    ensures
        code is None || code == Some(ProduceErrorCode::Other) ==> (steps.last() matches
            CallStep::Answer(Ok(response)) && response.event_status == EventStatus::Errored
            && response.raw_byte_size == 0 && response.event_byte_size == calls[0].no_events),
        code is Some && code != Some(ProduceErrorCode::Other) ==> steps.last()
            == CallStep::<C, E>::Answer(Err(error)),
{
    let last = calls.len() - 1;
    lemma_sizes_are_kept(calls, outcomes, steps, last);
    assert(is_next_step(calls[last], outcomes[last], steps[last]));
    assert(outcomes[last] == outcomes.last());
    assert(steps[last] == steps.last());
}

/// A request is taken exactly where the bytes of its record can be counted, and then as it is taken
/// anywhere; else it is handed back as it is.
pub proof fn law_try_call<F, H, M, C>(
    service: KafkaService,
    request: KafkaRequest<F, H, M>,
    event_byte_size: C,
    no_events: C,
    result: Result<(KafkaCall<C>, KafkaRecord<H>), KafkaRequest<F, H, M>>,
)
    requires
        call_ensures(
            KafkaService::try_call::<F, H, M, C>,
            (&service, request, event_byte_size, no_events),
            result,
        ),
    ensures
        ({
            let size = bytes_content(request.body).len() + (match request.metadata.key {
                Some(key) => bytes_content(key).len(),
                None => 0,
            });
            match result {
                Ok((call, record)) => {
                    &&& size <= usize::MAX
                    &&& call@.raw_byte_size == size
                    &&& call@.event_byte_size == event_byte_size
                    &&& call@.no_events == no_events
                    &&& !call@.blocked
                    &&& record.topic == request.metadata.topic
                    &&& record.payload == request.body
                    &&& record.key == request.metadata.key
                    &&& record.timestamp == request.metadata.timestamp_millis
                    &&& record.headers == request.metadata.headers
                },
                Err(back) => size > usize::MAX && back == request,
            }
        }),
{
}

/// A service takes requests exactly while no record is blocked; it starts with none. What becomes
/// of a record that was enqueued decides the answer: its sizes where it was delivered, else the
/// error.
pub proof fn law_service<C, E>(
    fresh: KafkaService,
    service: KafkaService,
    readiness: Readiness,
    delivery: Delivery<C>,
    delivered: Result<(), E>,
    answer: Result<KafkaResponse<C>, E>,
)
    requires
        call_ensures(KafkaService::new, (), fresh),
        call_ensures(KafkaService::poll_ready, (&service,), readiness),
        call_ensures(Delivery::<C>::answer::<E>, (delivery, delivered), answer),
    ensures
        fresh.shared.records_blocked == 0,
        readiness == Readiness::Ready <==> service.shared.records_blocked == 0,
        delivered matches Err(error) ==> (answer matches Err(told) && told == error),
        delivered is Ok ==> (answer matches Ok(response) && response.raw_byte_size
            == delivery.raw_byte_size && response.event_byte_size == delivery.event_byte_size
            && response.event_status == EventStatus::Delivered),
{
}

/// A request starts with the delays that are built from two milliseconds, each five times as long,
/// and a hundred at most.
pub proof fn law_fresh_delays<F, H, M, C>(
    base: ExponentialBackoff,
    longer: ExponentialBackoff,
    limited: ExponentialBackoff,
    service: KafkaService,
    request: KafkaRequest<F, H, M>,
    event_byte_size: C,
    no_events: C,
    call: KafkaCall<C>,
    record: KafkaRecord<H>,
)
    requires
        call_ensures(ExponentialBackoff::from_millis, (2,), base),
        call_ensures(ExponentialBackoff::factor, (base, 5), longer),
        call_ensures(ExponentialBackoff::max_delay, (longer, 100), limited),
        call_ensures(
            KafkaService::call::<F, H, M, C>,
            (&service, request, event_byte_size, no_events),
            (call, record),
        ),
    ensures
        call@.backoff == limited,
        limited.current == 2,
        limited.base == 2,
        limited.factor == 5,
        limited.max_delay == Some(100u64),
        !call@.blocked,
{
}

} // verus!
