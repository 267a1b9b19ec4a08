//! How a transform runs that works on several lists of batches at once.
//!
//! Each list of batches that is taken in gets a number. The numbers of the lists that are worked
//! on stand in a queue, and what comes of them is given out in the order of that queue, however
//! soon the work on each of them is done.

use std::collections::VecDeque;

use vstd::prelude::*;

use crate::topology::events::{
    filter_events_type, kind_of, type_contains, DataType, EventArray,
};
use crate::topology::run::{batch_len, total_events};

verus! {

/// Where a transform stands that works on several lists of batches at once.
#[derive(Debug)]
pub struct ConcurrentRun {
    /// The lists that are worked on, the oldest first.
    pub in_flight: VecDeque<u64>,
    /// How many lists have been taken in: the number of the next.
    pub taken: u64,
    /// No more batches will come.
    pub shutting_down: bool,
    /// What came of a list could not be given out.
    pub failed: bool,
}

/// What a [`ConcurrentRun`] stands for.
#[verifier::ext_equal]
pub struct ConcurrentView {
    pub in_flight: Seq<u64>,
    pub taken: u64,
    pub shutting_down: bool,
    pub failed: bool,
}

impl View for ConcurrentRun {
    type V = ConcurrentView;

    open spec fn view(&self) -> ConcurrentView {
        ConcurrentView {
            in_flight: self.in_flight@,
            taken: self.taken,
            shutting_down: self.shutting_down,
            failed: self.failed,
        }
    }
}

/// Where a transform stands at the start.
pub open spec fn fresh_run() -> ConcurrentView {
    ConcurrentView { in_flight: Seq::empty(), taken: 0, shutting_down: false, failed: false }
}

/// What a transform that works on several lists of batches at once does next.
#[derive(Debug, Clone, Copy, PartialEq, Eq, Structural)]
pub enum ConcurrentStep {
    /// It gives out what came of the list of this number.
    Give(u64),
    /// It takes in the next batches.
    Take,
    /// It waits until one of the two is possible.
    Wait,
    /// It looks again.
    Again,
    /// It ends.
    Stop,
}

/// What came of a list of batches may be waited for.
pub open spec fn may_give(run: ConcurrentView) -> bool {
    run.in_flight.len() > 0 && !run.failed
}

/// Batches may be waited for: fewer lists are worked on than may be at once, and more batches may
/// come.
pub open spec fn may_take(run: ConcurrentView, limit: nat) -> bool {
    run.in_flight.len() < limit && !run.shutting_down && !run.failed
}

/// The next thing to do: what came of the oldest list goes first, and no more lists are taken in
/// than may be worked on at once, nor any when no more will come.
pub open spec fn concurrent_step(
    run: ConcurrentView,
    limit: nat,
    given_ready: bool,
    taken_ready: bool,
) -> ConcurrentStep {
    if !may_give(run) && !may_take(run, limit) {
        if run.shutting_down || run.failed {
            ConcurrentStep::Stop
        } else {
            ConcurrentStep::Again
        }
    } else if may_give(run) && given_ready {
        ConcurrentStep::Give(run.in_flight[0])
    } else if may_take(run, limit) && taken_ready {
        ConcurrentStep::Take
    } else {
        ConcurrentStep::Wait
    }
}

/// A list of batches to be worked on.
pub struct ConcurrentWork<L, M, T> {
    /// The number of the list.
    pub number: u64,
    pub batches: Vec<EventArray<L, M, T>>,
    /// How many events there are: what the buffer for what comes of them starts with.
    pub len: usize,
}

/// The batches that a transform takes, out of those that came in.
pub open spec fn passing<L, M, T>(
    batches: Seq<EventArray<L, M, T>>,
    input_type: DataType,
) -> Seq<EventArray<L, M, T>>
    decreases batches.len(),
{
    if batches.len() == 0 {
        Seq::empty()
    } else {
        let front = passing(batches.drop_last(), input_type);
        if type_contains(input_type, kind_of(batches.last())) {
            front.push(batches.last())
        } else {
            front
        }
    }
}

/// Keeps the batches that a transform takes.
fn keep_passing<L, M, T>(batches: Vec<EventArray<L, M, T>>, input_type: DataType) -> (kept: Vec<
    EventArray<L, M, T>,
>)
    ensures
        kept@ == passing(batches@, input_type),
{
    let ghost all = batches@;
    let mut kept: Vec<EventArray<L, M, T>> = Vec::new();
    assert(all.take(0).len() == 0);
    for batch in it: batches
        invariant
            it.seq() == all,
            kept@ == passing(all.take(it.index()), input_type),
    {
        proof {
            let i = it.index() as int;
            assert(all.take(i + 1).drop_last() =~= all.take(i));
            assert(all.take(i + 1).last() == batch);
        }
        if filter_events_type(&batch, input_type) {
            kept.push(batch);
        }
    }
    assert(all.take(all.len() as int) =~= all);
    kept
}

/// The event that comes of what was received: a list of which the transform takes nothing is none.
pub open spec fn received_event<L, M, T>(
    received: Option<Seq<EventArray<L, M, T>>>,
    input_type: DataType,
) -> Option<ConcurrentEvent> {
    match received {
        Some(batches) => if passing(batches, input_type).len() > 0 {
            Some(ConcurrentEvent::Took)
        } else {
            None
        },
        None => Some(ConcurrentEvent::Closed),
    }
}

impl ConcurrentRun {
    /// Starts with nothing in flight.
    pub fn new() -> (run: ConcurrentRun)
        ensures
            run@ == fresh_run(),
    {
        ConcurrentRun { in_flight: VecDeque::new(), taken: 0, shutting_down: false, failed: false }
    }

    /// Whether what comes of a list may be waited for.
    pub fn may_give(&self) -> (may: bool)
        ensures
            may == may_give(self@),
    {
        self.in_flight.len() > 0 && !self.failed
    }

    /// Whether batches may be waited for.
    pub fn may_take(&self, limit: usize) -> (may: bool)
        ensures
            may == may_take(self@, limit as nat),
    {
        self.in_flight.len() < limit && !self.shutting_down && !self.failed
    }

    /// What is done next, given whether the work on the oldest list is done and whether there are
    /// batches to take in (or there will be none any more).
    pub fn run_concurrently(&self, limit: usize, given_ready: bool, taken_ready: bool) -> (step:
        ConcurrentStep)
        ensures
            step == concurrent_step(self@, limit as nat, given_ready, taken_ready),
    {
        let may_give: bool = self.may_give();
        let may_take: bool = self.may_take(limit);
        if !may_give && !may_take {
            if self.shutting_down || self.failed {
                ConcurrentStep::Stop
            } else {
                ConcurrentStep::Again
            }
        } else if may_give && given_ready {
            ConcurrentStep::Give(self.in_flight[0])
        } else if may_take && taken_ready {
            ConcurrentStep::Take
        } else {
            ConcurrentStep::Wait
        }
    }

    /// What came of the oldest list has been given out, or could not be. An error ends the
    /// transform, which then gives out nothing more.
    pub fn gave<E>(&mut self, sent: Result<(), E>) -> (end: Option<Result<(), E>>)
        requires
            old(self)@.in_flight.len() > 0,
        ensures
            final(self)@ == after_event(
                old(self)@,
                if sent is Ok {
                    ConcurrentEvent::Gave
                } else {
                    ConcurrentEvent::Failed
                },
            ),
            end == (match sent {
                Ok(()) => None,
                Err(error) => Some(Err::<(), E>(error)),
            }),
    {
        let _ = self.in_flight.pop_front();
        match sent {
            Ok(()) => None,
            Err(error) => {
                self.failed = true;
                Some(Err(error))
            },
        }
    }

    /// Batches came in, or there will be none any more. Those that the transform takes are to be
    /// worked on, as one list; the others are dropped.
    pub fn took<L, M, T>(
        &mut self,
        input_type: DataType,
        received: Option<Vec<EventArray<L, M, T>>>,
    ) -> (work: Option<ConcurrentWork<L, M, T>>)
        requires
            old(self).taken < u64::MAX,
            match received {
                Some(batches) => total_events(passing(batches@, input_type)) <= usize::MAX,
                None => true,
            },
        ensures
            ({
                let batches = match received {
                    Some(batches) => Some(batches@),
                    None => None,
                };
                &&& final(self)@ == (match received_event(batches, input_type) {
                    Some(event) => after_event(old(self)@, event),
                    None => old(self)@,
                })
                &&& work is Some <==> received_event(batches, input_type) == Some(
                    ConcurrentEvent::Took,
                )
                &&& work matches Some(work) ==> {
                    &&& work.number == old(self).taken
                    &&& work.batches@ == passing(batches->0, input_type)
                    &&& work.len == total_events(work.batches@)
                }
            }),
    {
        match received {
            Some(batches) => {
                let batches = keep_passing(batches, input_type);
                if batches.len() == 0 {
                    None
                } else {
                    let number: u64 = self.taken;
                    let len: usize = batch_len(&batches);
                    self.in_flight.push_back(number);
                    self.taken = number + 1;
                    Some(ConcurrentWork { number, batches, len })
                }
            },
            None => {
                self.shutting_down = true;
                None
            },
        }
    }
}

/// What happens to a transform that works on several lists of batches at once.
pub enum ConcurrentEvent {
    /// What came of the oldest list was given out.
    Gave,
    /// What came of the oldest list could not be given out.
    Failed,
    /// A list of batches was taken in.
    Took,
    /// It was heard that no more batches will come.
    Closed,
}

/// Where a transform stands after an event.
pub open spec fn after_event(run: ConcurrentView, event: ConcurrentEvent) -> ConcurrentView {
    match event {
        ConcurrentEvent::Gave => ConcurrentView { in_flight: run.in_flight.drop_first(), ..run },
        ConcurrentEvent::Failed => ConcurrentView {
            in_flight: run.in_flight.drop_first(),
            failed: true,
            ..run
        },
        ConcurrentEvent::Took => ConcurrentView {
            in_flight: run.in_flight.push(run.taken),
            taken: (run.taken + 1) as u64,
            ..run
        },
        ConcurrentEvent::Closed => ConcurrentView { shutting_down: true, ..run },
    }
}

/// The event is one that the transform waits for where it stands.
pub open spec fn is_allowed(run: ConcurrentView, limit: nat, event: ConcurrentEvent) -> bool {
    match event {
        ConcurrentEvent::Gave | ConcurrentEvent::Failed => may_give(run),
        ConcurrentEvent::Took | ConcurrentEvent::Closed => may_take(run, limit),
    }
}

/// Where a transform stands after a list of events.
pub open spec fn after_events(events: Seq<ConcurrentEvent>) -> ConcurrentView
    decreases events.len(),
{
    if events.len() == 0 {
        fresh_run()
    } else {
        after_event(after_events(events.drop_last()), events.last())
    }
}

/// Each event of a list was waited for when it came.
pub open spec fn all_allowed(events: Seq<ConcurrentEvent>, limit: nat) -> bool
    decreases events.len(),
{
    events.len() > 0 ==> all_allowed(events.drop_last(), limit) && is_allowed(
        after_events(events.drop_last()),
        limit,
        events.last(),
    )
}

/// The numbers of the lists that were taken in, in the order in which they came in.
pub open spec fn taken_in(events: Seq<ConcurrentEvent>) -> Seq<u64>
    decreases events.len(),
{
    if events.len() == 0 {
        Seq::empty()
    } else {
        let front = taken_in(events.drop_last());
        if events.last() is Took {
            front.push(after_events(events.drop_last()).taken)
        } else {
            front
        }
    }
}

/// The numbers of the lists whose results were handed on, in the order in which they were; where
/// the transform failed, the last of them could not be given out.
pub open spec fn given_out(events: Seq<ConcurrentEvent>) -> Seq<u64>
    decreases events.len(),
{
    if events.len() == 0 {
        Seq::empty()
    } else {
        let front = given_out(events.drop_last());
        if events.last() is Gave || events.last() is Failed {
            front.push(after_events(events.drop_last()).in_flight[0])
        } else {
            front
        }
    }
}

/// What comes of lists of batches is given out in the order in which they were taken in, none
/// twice and none left out: what has been given out, followed by what is still worked on, is what
/// has been taken in. So what has been given out is always a beginning of what has been taken in.
pub proof fn law_order_is_kept(events: Seq<ConcurrentEvent>, limit: nat)
    requires
        all_allowed(events, limit),
    ensures
        taken_in(events) == given_out(events) + after_events(events).in_flight,
        given_out(events).is_prefix_of(taken_in(events)),
    decreases events.len(),
{
    if events.len() > 0 {
        let front = events.drop_last();
        law_order_is_kept(front, limit);
        let before = after_events(front).in_flight;
        let after = after_events(events).in_flight;
        match events.last() {
            ConcurrentEvent::Gave | ConcurrentEvent::Failed => {
                assert(given_out(front) + before =~= given_out(front).push(before[0])
                    + before.drop_first());
            },
            ConcurrentEvent::Took => {
                let number = after_events(front).taken;
                assert((given_out(front) + before).push(number) =~= given_out(front) + before.push(
                    number,
                ));
            },
            ConcurrentEvent::Closed => {},
        }
    }
    assert(given_out(events) =~= taken_in(events).take(given_out(events).len() as int));
}

/// Lists of batches are numbered as they come in, from zero on.
pub proof fn law_numbers(events: Seq<ConcurrentEvent>, i: int)
    requires
        taken_in(events).len() <= u64::MAX,
        0 <= i < taken_in(events).len(),
    ensures
        taken_in(events)[i] == i,
{
    lemma_numbers(events);
}

proof fn lemma_numbers(events: Seq<ConcurrentEvent>)
    requires
        taken_in(events).len() <= u64::MAX,
    ensures
        after_events(events).taken == taken_in(events).len(),
        forall|i: int| 0 <= i < taken_in(events).len() ==> #[trigger] taken_in(events)[i] == i,
    decreases events.len(),
{
    if events.len() > 0 {
        lemma_numbers(events.drop_last());
    }
}

/// Never are more lists worked on than may be at once.
pub proof fn law_limit(events: Seq<ConcurrentEvent>, limit: nat)
    requires
        all_allowed(events, limit),
    ensures
        after_events(events).in_flight.len() <= limit,
    decreases events.len(),
{
    if events.len() > 0 {
        law_limit(events.drop_last(), limit);
    }
}

/// Where what came of a list could not be given out, nothing follows: nothing more is given out or
/// taken in, and the transform ends.
pub proof fn law_failure_ends(
    events: Seq<ConcurrentEvent>,
    limit: nat,
    i: int,
    given_ready: bool,
    taken_ready: bool,
)
    requires
        all_allowed(events, limit),
        0 <= i < events.len(),
        events[i] is Failed,
    ensures
        i == events.len() - 1,
        forall|event: ConcurrentEvent| !is_allowed(after_events(events), limit, event),
        concurrent_step(after_events(events), limit, given_ready, taken_ready)
            == ConcurrentStep::Stop,
    decreases events.len(),
{
    let front = events.drop_last();
    if i < events.len() - 1 {
        assert(front[i] is Failed);
        law_failure_ends(front, limit, i, given_ready, taken_ready);
    }
}

/// Batches are taken in until it is heard that no more will come.
pub proof fn law_shutting_down(events: Seq<ConcurrentEvent>)
    ensures
        after_events(events).shutting_down == (exists|i: int|
            0 <= i < events.len() && #[trigger] events[i] is Closed),
        after_events(events).failed == (exists|i: int|
            0 <= i < events.len() && #[trigger] events[i] is Failed),
    decreases events.len(),
{
    if events.len() > 0 {
        let front = events.drop_last();
        law_shutting_down(front);
        assert forall|i: int| 0 <= i < front.len() implies #[trigger] events[i] == front[i] by {}
        assert(events[events.len() - 1] == events.last());
        if after_events(front).shutting_down {
            let i = choose|i: int| 0 <= i < front.len() && #[trigger] front[i] is Closed;
            assert(events[i] is Closed);
        }
        if after_events(front).failed {
            let i = choose|i: int| 0 <= i < front.len() && #[trigger] front[i] is Failed;
            assert(events[i] is Failed);
        }
    }
}

/// A transform that has not failed ends only when no more batches will come and what came of all
/// that were taken in has been given out.
pub proof fn law_ends_drained(
    events: Seq<ConcurrentEvent>,
    limit: nat,
    given_ready: bool,
    taken_ready: bool,
)
    requires
        all_allowed(events, limit),
        forall|i: int| 0 <= i < events.len() ==> !(#[trigger] events[i] is Failed),
        concurrent_step(after_events(events), limit, given_ready, taken_ready)
            == ConcurrentStep::Stop,
    ensures
        given_out(events) == taken_in(events),
        exists|i: int| 0 <= i < events.len() && #[trigger] events[i] is Closed,
{
    law_shutting_down(events);
    law_order_is_kept(events, limit);
    assert(given_out(events) + after_events(events).in_flight =~= given_out(events));
}

/// What is done next is something that the transform may do where it stands, so that what follows
/// on it is allowed again; and what is given out next came of the oldest list.
pub proof fn law_steps_are_allowed(
    run: ConcurrentView,
    limit: nat,
    given_ready: bool,
    taken_ready: bool,
)
    ensures
        concurrent_step(run, limit, given_ready, taken_ready) matches ConcurrentStep::Give(number)
            ==> number == run.in_flight[0] && is_allowed(run, limit, ConcurrentEvent::Gave)
            && is_allowed(run, limit, ConcurrentEvent::Failed),
        concurrent_step(run, limit, given_ready, taken_ready) == ConcurrentStep::Take
            ==> is_allowed(run, limit, ConcurrentEvent::Took) && is_allowed(
            run,
            limit,
            ConcurrentEvent::Closed,
        ),
        limit > 0 ==> concurrent_step(run, limit, given_ready, taken_ready)
            != ConcurrentStep::Again,
{
}

/// However the batches that come in are cut into lists, those that the transform takes reach it in
/// the order in which they came, and only those.
pub proof fn law_passing<L, M, T>(
    first: Seq<EventArray<L, M, T>>,
    later: Seq<EventArray<L, M, T>>,
    input_type: DataType,
)
    ensures
        passing(first + later, input_type) == passing(first, input_type) + passing(
            later,
            input_type,
        ),
        forall|i: int|
            0 <= i < passing(first, input_type).len() ==> type_contains(
                input_type,
                kind_of(#[trigger] passing(first, input_type)[i]),
            ),
    decreases first.len() + later.len(),
{
    if later.len() > 0 {
        law_passing(first, later.drop_last(), input_type);
        assert((first + later).drop_last() =~= first + later.drop_last());
    } else {
        assert(first + later =~= first);
        if first.len() > 0 {
            law_passing(first.drop_last(), later, input_type);
        }
    }
}

/// A batch reaches a transform exactly where the transform takes events of the kind that it holds.
pub proof fn law_batch_passes<L, M, T>(batch: EventArray<L, M, T>, input_type: DataType)
    ensures
        passing(seq![batch], input_type) == if (match batch {
            EventArray::Logs(_) => input_type.log,
            EventArray::Metrics(_) => input_type.metric,
            EventArray::Traces(_) => input_type.trace,
        }) {
            seq![batch]
        } else {
            seq![]
        },
{
    let one = seq![batch];
    assert(one.drop_last() =~= Seq::empty());
    assert(one.last() == batch);
    reveal_with_fuel(passing, 2);
    assert(Seq::empty().push(batch) =~= one);
}

/// What is done next. What came of the oldest list is given out as soon as it is there. Batches are
/// taken in where they are there, fewer lists are worked on than may be, and nothing can be given
/// out. The transform ends where it has failed, or where no more batches will come and nothing is
/// worked on any more.
pub proof fn law_next_step(
    run: ConcurrentRun,
    limit: usize,
    given_ready: bool,
    taken_ready: bool,
    step: ConcurrentStep,
)
    requires
        call_ensures(
            ConcurrentRun::run_concurrently,
            (&run, limit, given_ready, taken_ready),
            step,
        ),
    ensures
        step is Give <==> !run.failed && given_ready && run.in_flight@.len() > 0,
        step matches ConcurrentStep::Give(number) ==> number == run.in_flight@[0],
        step is Take <==> !run.failed && !run.shutting_down && taken_ready && run.in_flight@.len()
            < limit && !(given_ready && run.in_flight@.len() > 0),
        step is Stop <==> run.failed || (run.shutting_down && run.in_flight@.len() == 0),
        step is Again <==> !run.failed && !run.shutting_down && run.in_flight@.len() == 0 && limit
            == 0,
{
}

/// What came in counts as a list exactly where the transform takes some batch of it; and where
/// there will be no more, that is heard.
pub proof fn law_received<L, M, T>(
    received: Option<Seq<EventArray<L, M, T>>>,
    input_type: DataType,
)
    ensures
        match received {
            None => received_event(received, input_type) == Some(ConcurrentEvent::Closed),
            Some(batches) => if exists|i: int|
                0 <= i < batches.len() && match #[trigger] batches[i] {
                    EventArray::Logs(_) => input_type.log,
                    EventArray::Metrics(_) => input_type.metric,
                    EventArray::Traces(_) => input_type.trace,
                } {
                received_event(received, input_type) == Some(ConcurrentEvent::Took)
            } else {
                received_event(received, input_type) is None
            },
        },
{
    if let Some(batches) = received {
        lemma_some_passes(batches, input_type);
    }
}

proof fn lemma_some_passes<L, M, T>(batches: Seq<EventArray<L, M, T>>, input_type: DataType)
    ensures
        passing(batches, input_type).len() > 0 <==> exists|i: int|
            0 <= i < batches.len() && match #[trigger] batches[i] {
                EventArray::Logs(_) => input_type.log,
                EventArray::Metrics(_) => input_type.metric,
                EventArray::Traces(_) => input_type.trace,
            },
    decreases batches.len(),
{
    if batches.len() > 0 {
        let front = batches.drop_last();
        let last = batches.len() - 1;
        lemma_some_passes(front, input_type);
        assert(batches[last] == batches.last());
        assert forall|i: int| 0 <= i < last implies #[trigger] front[i] == batches[i] by {}
        if passing(front, input_type).len() > 0 {
            let i = choose|i: int|
                0 <= i < front.len() && match #[trigger] front[i] {
                    EventArray::Logs(_) => input_type.log,
                    EventArray::Metrics(_) => input_type.metric,
                    EventArray::Traces(_) => input_type.trace,
                };
            assert(batches[i] == front[i]);
        }
        if exists|i: int|
            0 <= i < batches.len() && match #[trigger] batches[i] {
                EventArray::Logs(_) => input_type.log,
                EventArray::Metrics(_) => input_type.metric,
                EventArray::Traces(_) => input_type.trace,
            } {
            let i = choose|i: int|
                0 <= i < batches.len() && match #[trigger] batches[i] {
                    EventArray::Logs(_) => input_type.log,
                    EventArray::Metrics(_) => input_type.metric,
                    EventArray::Traces(_) => input_type.trace,
                };
            if i < last {
                assert(front[i] == batches[i]);
            }
        }
    }
}

} // verus!
