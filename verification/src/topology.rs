//! Wiring, fan-out and acknowledgement.

use crate::config::Config;
use crate::event::EventBatch;
use std::sync::Arc;
use vstd::prelude::*;

verus! {

/// One batch on its way to one sink.
#[derive(Debug)]
pub struct SinkEnvelope {
    batch: Arc<EventBatch>,
    ack: BranchAck,
}

/// What the branches of one batch have answered so far.
///
/// `notify` is what the sender waits on; it is handed out with the verdict, so a
/// verdict is given at most once.
#[derive(Debug)]
pub struct AckState<N> {
    pub remaining: usize,
    pub delivered: bool,
    pub notify: Option<N>,
}

/// One branch's part of the acknowledgement.
#[derive(Debug)]
pub struct BranchAck {
    pub completed: bool,
}

/// The state before any of `branches` has answered.
pub open spec fn unanswered<N>(branches: usize, notify: N) -> AckState<N> {
    AckState { remaining: branches, delivered: true, notify: Some(notify) }
}

/// The state after one more branch has answered.
pub open spec fn answered<N>(state: AckState<N>, delivered: bool) -> AckState<N> {
    AckState {
        remaining: (state.remaining - 1) as usize,
        delivered: state.delivered && delivered,
        notify: if state.remaining == 1 {
            None
        } else {
            state.notify
        },
    }
}

/// The verdict that one more answer brings about, if it was the last one owed.
pub open spec fn verdict<N>(state: AckState<N>, delivered: bool) -> Option<(N, bool)> {
    match state.notify {
        Some(notify) if state.remaining == 1 => Some((notify, state.delivered && delivered)),
        _ => None,
    }
}

/// The state after the branches have answered, in this order.
pub open spec fn answered_all<N>(state: AckState<N>, answers: Seq<bool>) -> AckState<N>
    decreases answers.len(),
{
    if answers.len() == 0 {
        state
    } else {
        answered(answered_all(state, answers.drop_last()), answers.last())
    }
}

/// Every answer was positive.
pub open spec fn all_delivered(answers: Seq<bool>) -> bool {
    forall|i: int| 0 <= i < answers.len() ==> answers[i]
}

proof fn lemma_answered_all<N>(branches: usize, notify: N, answers: Seq<bool>)
    requires
        answers.len() <= branches,
        branches > 0,
    ensures
        answered_all(unanswered(branches, notify), answers) == (AckState {
            remaining: (branches - answers.len()) as usize,
            delivered: all_delivered(answers),
            notify: if answers.len() == branches {
                None
            } else {
                Some(notify)
            },
        }),
    decreases answers.len(),
{
    if answers.len() > 0 {
        lemma_answered_all(branches, notify, answers.drop_last());
        assert(all_delivered(answers) == (all_delivered(answers.drop_last()) && answers.last()))
            by {
            if all_delivered(answers.drop_last()) && answers.last() {
                assert forall|i: int| 0 <= i < answers.len() implies answers[i] by {
                    if i < answers.len() - 1 {
                        assert(answers.drop_last()[i]);
                    }
                }
            }
            if all_delivered(answers) {
                assert forall|i: int| 0 <= i < answers.drop_last().len() implies answers.drop_last()[i] by {
                    assert(answers[i]);
                }
            }
        }
    }
}

/// The sender of a batch learns one verdict, from the last branch to answer, and
/// it is positive only if every branch delivered: one that failed, or whose
/// envelope was dropped, rejects the batch. Until then there is no verdict.
pub proof fn the_last_branch_gives_the_verdict<N>(notify: N, answers: Seq<bool>, i: int)
    requires
        answers.len() <= usize::MAX,
        0 <= i < answers.len(),
    ensures
        verdict(
            answered_all(unanswered(answers.len() as usize, notify), answers.take(i)),
            answers[i],
        ) == (if i + 1 == answers.len() {
            Some((notify, all_delivered(answers)))
        } else {
            None
        }),
{
    let branches = answers.len() as usize;
    lemma_answered_all(branches, notify, answers.take(i));
    if i + 1 == answers.len() {
        assert(all_delivered(answers) == (all_delivered(answers.take(i)) && answers[i])) by {
            assert(answers.take(i) =~= answers.drop_last());
            lemma_answered_all(branches, notify, answers);
        }
    }
}

impl BranchAck {
    /// A branch that has not answered.
    pub fn new() -> (ack: Self)
        ensures
            !ack.completed,
    {
        BranchAck { completed: false }
    }

    /// Records the branch's answer. Only the first one counts. Returns what the
    /// sender waits on, with the verdict, when this was the last answer owed.
    pub fn complete<N>(&mut self, state: &mut AckState<N>, delivered: bool) -> (notice: Option<
        (N, bool),
    >)
        requires
            !old(self).completed ==> old(state).remaining > 0,
        ensures
            final(self).completed,
            old(self).completed ==> *final(state) == *old(state) && notice is None,
            !old(self).completed ==> *final(state) == answered(*old(state), delivered) && notice
                == verdict(*old(state), delivered),
            !old(self).completed ==> {
                &&& final(state).remaining == old(state).remaining - 1
                &&& final(state).delivered <==> old(state).delivered && delivered
                &&& old(state).remaining > 1 ==> notice is None && final(state).notify == old(
                    state,
                ).notify
                &&& old(state).remaining == 1 ==> final(state).notify is None && match old(
                    state,
                ).notify {
                    Some(notify) => notice == Some((notify, old(state).delivered && delivered)),
                    None => notice is None,
                }
            },
    {
        if self.completed {
            return None;
        }
        self.completed = true;
        state.delivered = state.delivered && delivered;
        state.remaining = state.remaining - 1;
        if state.remaining == 0 {
            match state.notify.take() {
                Some(notify) => Some((notify, state.delivered)),
                None => None,
            }
        } else {
            None
        }
    }
}

impl SinkEnvelope {
    /// The batch carried.
    pub closed spec fn carried(self) -> Arc<EventBatch> {
        self.batch
    }

    /// Whether the branch has answered.
    pub closed spec fn is_answered(self) -> bool {
        self.ack.completed
    }

    pub fn new(batch: Arc<EventBatch>) -> (envelope: Self)
        ensures
            envelope.carried() == batch,
            !envelope.is_answered(),
    {
        SinkEnvelope { batch, ack: BranchAck::new() }
    }

    pub fn batch(&self) -> (batch: &Arc<EventBatch>)
        ensures
            *batch == self.carried(),
    {
        &self.batch
    }

    fn settle<N>(&mut self, state: &mut AckState<N>, delivered: bool) -> (notice: Option<
        (N, bool),
    >)
        requires
            !old(self).is_answered() ==> old(state).remaining > 0,
        ensures
            final(self).is_answered(),
            final(self).carried() == old(self).carried(),
            old(self).is_answered() ==> *final(state) == *old(state) && notice is None,
            !old(self).is_answered() ==> *final(state) == answered(*old(state), delivered)
                && notice == verdict(*old(state), delivered),
    {
        self.ack.complete(state, delivered)
    }

    /// The sink has written the batch.
    pub fn delivered<N>(&mut self, state: &mut AckState<N>) -> (notice: Option<(N, bool)>)
        requires
            !old(self).is_answered() ==> old(state).remaining > 0,
        ensures
            final(self).is_answered(),
            final(self).carried() == old(self).carried(),
            old(self).is_answered() ==> *final(state) == *old(state) && notice is None,
            !old(self).is_answered() ==> *final(state) == answered(*old(state), true) && notice
                == verdict(*old(state), true),
    {
        self.settle(state, true)
    }

    /// The sink has given the batch up, or the envelope is being dropped.
    pub fn failed<N>(&mut self, state: &mut AckState<N>) -> (notice: Option<(N, bool)>)
        requires
            !old(self).is_answered() ==> old(state).remaining > 0,
        ensures
            final(self).is_answered(),
            final(self).carried() == old(self).carried(),
            old(self).is_answered() ==> *final(state) == *old(state) && notice is None,
            !old(self).is_answered() ==> *final(state) == answered(*old(state), false) && notice
                == verdict(*old(state), false),
    {
        self.settle(state, false)
    }
}

/// Why a batch counts as not delivered.
#[derive(Debug, Clone, Copy, PartialEq, Eq, Structural)]
pub enum FanoutError {
    /// A destination no longer takes envelopes.
    SinkStopped,
    /// A branch answered that it did not deliver.
    Rejected,
    /// No branch is left that could answer.
    AckClosed,
}

impl FanoutError {
    pub fn message(self) -> (message: &'static str)
        ensures
            message@ == match self {
                FanoutError::SinkStopped => "sink task stopped"@,
                FanoutError::Rejected => "one or more sinks rejected the batch"@,
                FanoutError::AckClosed => "acknowledgement channel closed"@,
            },
    {
        match self {
            FanoutError::SinkStopped => "sink task stopped",
            FanoutError::Rejected => "one or more sinks rejected the batch",
            FanoutError::AckClosed => "acknowledgement channel closed",
        }
    }
}

/// The destinations that every batch of a source goes to.
#[derive(Debug)]
pub struct Fanout<D> {
    destinations: Vec<D>,
}

/// A batch under way: the shared acknowledgement and one envelope per
/// destination, in the order of the destinations.
#[derive(Debug)]
pub struct Dispatch<N> {
    pub state: AckState<N>,
    pub envelopes: Vec<SinkEnvelope>,
}

impl<D> Fanout<D> {
    /// Where batches go.
    pub closed spec fn outputs(self) -> Seq<D> {
        self.destinations@
    }

    pub fn new(destinations: Vec<D>) -> (fanout: Self)
        ensures
            fanout.outputs() == destinations@,
    {
        Fanout { destinations }
    }

    pub fn destinations(&self) -> (destinations: &[D])
        ensures
            destinations@ == self.outputs(),
    {
        self.destinations.as_slice()
    }

    /// Addresses `batch` to every destination. Without destinations there is
    /// nothing to wait for and the batch counts as delivered.
    pub fn send<N>(&self, batch: EventBatch, notify: N) -> (dispatch: Option<Dispatch<N>>)
        ensures
            match dispatch {
                Some(dispatch) => {
                    &&& self.outputs().len() > 0
                    &&& dispatch.state == unanswered(self.outputs().len() as usize, notify)
                    &&& dispatch.state.remaining == self.outputs().len()
                    &&& dispatch.state.delivered
                    &&& dispatch.state.notify == Some(notify)
                    &&& dispatch.envelopes@.len() == self.outputs().len()
                    &&& forall|i: int|
                        0 <= i < dispatch.envelopes@.len() ==> {
                            &&& *(#[trigger] dispatch.envelopes@[i]).carried() == batch
                            &&& !dispatch.envelopes@[i].is_answered()
                        }
                },
                None => self.outputs().len() == 0,
            },
    {
        if self.destinations.is_empty() {
            return None;
        }
        let count: usize = self.destinations.len();
        let shared: Arc<EventBatch> = Arc::new(batch);
        let mut envelopes: Vec<SinkEnvelope> = Vec::new();
        let mut i: usize = 0;
        while i < count
            invariant
                i <= count,
                envelopes@.len() == i,
                *shared == batch,
                forall|j: int|
                    0 <= j < i ==> {
                        &&& *(#[trigger] envelopes@[j]).carried() == batch
                        &&& !envelopes@[j].is_answered()
                    },
            decreases count - i,
        {
            envelopes.push(SinkEnvelope::new(Arc::clone(&shared)));
            i += 1;
        }
        Some(
            Dispatch {
                state: AckState { remaining: count, delivered: true, notify: Some(notify) },
                envelopes,
            },
        )
    }
}

/// What the sender of a batch reports.
pub open spec fn conclusion(all_sent: bool, verdict: Option<bool>) -> Result<(), FanoutError> {
    if !all_sent {
        Err(FanoutError::SinkStopped)
    } else {
        match verdict {
            Some(true) => Ok(()),
            Some(false) => Err(FanoutError::Rejected),
            None => Err(FanoutError::AckClosed),
        }
    }
}

/// A batch that every destination took counts as delivered exactly when every
/// branch delivered it; if any failed, it is rejected.
pub proof fn a_batch_is_delivered_only_by_every_branch<N>(notify: N, answers: Seq<bool>)
    requires
        0 < answers.len() <= usize::MAX,
    ensures
        ({
            let last = answers.len() - 1;
            let before = answered_all(
                unanswered(answers.len() as usize, notify),
                answers.take(last),
            );
            match verdict(before, answers[last]) {
                Some((_, delivered)) => {
                    &&& conclusion(true, Some(delivered)) is Ok <==> all_delivered(answers)
                    &&& !all_delivered(answers) ==> conclusion(true, Some(delivered)) == Err::<
                        (),
                        FanoutError,
                    >(FanoutError::Rejected)
                },
                None => false,
            }
        }),
{
    the_last_branch_gives_the_verdict(notify, answers, answers.len() - 1);
}

/// A batch counts as delivered only if every destination took its envelope and
/// the branches answered that they delivered it; whatever is missing has its own
/// error, and an envelope that was not taken comes first.
pub proof fn a_batch_counts_as_delivered_only_if_taken_and_delivered(
    all_sent: bool,
    verdict: Option<bool>,
)
    ensures
        conclusion(all_sent, verdict) is Ok <==> all_sent && verdict is Some && verdict.unwrap(),
        !all_sent ==> conclusion(all_sent, verdict) == Err::<(), FanoutError>(
            FanoutError::SinkStopped,
        ),
        all_sent && verdict is Some && !verdict.unwrap() ==> conclusion(all_sent, verdict) == Err::<
            (),
            FanoutError,
        >(FanoutError::Rejected),
        all_sent && verdict is None ==> conclusion(all_sent, verdict) == Err::<(), FanoutError>(
            FanoutError::AckClosed,
        ),
{
}

/// Nobody is told anything before the last branch has answered, and then the
/// sender is told whether each and every branch delivered.
pub proof fn the_sender_learns_whether_every_branch_delivered<N>(notify: N, answers: Seq<bool>, i: int)
    requires
        answers.len() <= usize::MAX,
        0 <= i < answers.len(),
    ensures
        match verdict(
            answered_all(unanswered(answers.len() as usize, notify), answers.take(i)),
            answers[i],
        ) {
            Some((told, delivered)) => {
                &&& i == answers.len() - 1
                &&& told == notify
                &&& delivered <==> (forall|j: int|
                    0 <= j < answers.len() ==> #[trigger] answers[j] == true)
            },
            None => i < answers.len() - 1,
        },
{
    the_last_branch_gives_the_verdict(notify, answers, i);
    if all_delivered(answers) {
        assert forall|j: int| 0 <= j < answers.len() implies #[trigger] answers[j] == true by {}
    }
}

/// What the sender of a batch reports: `all_sent` says whether every destination
/// took its envelope, `verdict` what the branches answered, if they did.
pub fn conclude(all_sent: bool, verdict: Option<bool>) -> (outcome: Result<(), FanoutError>)
    ensures
        outcome == conclusion(all_sent, verdict),
        outcome is Ok <==> all_sent && verdict is Some && verdict.unwrap(),
        !all_sent ==> outcome == Err::<(), FanoutError>(FanoutError::SinkStopped),
        all_sent && verdict is Some && !verdict.unwrap() ==> outcome == Err::<(), FanoutError>(
            FanoutError::Rejected,
        ),
        all_sent && verdict is None ==> outcome == Err::<(), FanoutError>(FanoutError::AckClosed),
{
    if !all_sent {
        return Err(FanoutError::SinkStopped);
    }
    match verdict {
        Some(delivered) => if delivered {
            Ok(())
        } else {
            Err(FanoutError::Rejected)
        },
        None => Err(FanoutError::AckClosed),
    }
}

/// The positions, among the first `count` sinks in id order, of those that read
/// from `source`.
pub open spec fn readers(config: Config, source: Seq<char>, count: int) -> Seq<usize>
    decreases count,
{
    if count <= 0 {
        Seq::empty()
    } else if config.sinks.values()[count - 1].input_ids().contains(source) {
        readers(config, source, count - 1).push((count - 1) as usize)
    } else {
        readers(config, source, count - 1)
    }
}

/// The positions of the sinks that read from `source`, in id order.
pub fn destinations_of(config: &Config, source: &str) -> (sinks: Vec<usize>)
    ensures
        sinks@ == readers(*config, source@, config.sinks.ids().len() as int),
        sinks@.no_duplicates(),
        forall|i: usize| #[trigger]
            sinks@.contains(i) <==> i < config.sinks.ids().len()
                && config.sinks.values()[i as int].input_ids().contains(source@),
        forall|a: int, b: int| 0 <= a < b < sinks@.len() ==> sinks@[a] < sinks@[b],
{
    let count: usize = config.sinks.len();
    let mut sinks: Vec<usize> = Vec::new();
    let mut i: usize = 0;
    while i < count
        invariant
            i <= count,
            count == config.sinks.ids().len(),
            sinks@ == readers(*config, source@, i as int),
            forall|a: int| 0 <= a < sinks@.len() ==> #[trigger] sinks@[a] < i,
            forall|a: int, b: int| 0 <= a < b < sinks@.len() ==> sinks@[a] < sinks@[b],
        decreases count - i,
    {
        if config.sinks.value_at(i).reads_from(source) {
            sinks.push(i);
        }
        i += 1;
    }
    proof {
        destinations_are_the_sinks_that_name_the_source(*config, source@, count as int);
    }
    sinks
}

/// A sink is a destination of a source exactly when it names the source among
/// its inputs, and it is one once.
pub proof fn destinations_are_the_sinks_that_name_the_source(
    config: Config,
    source: Seq<char>,
    count: int,
)
    requires
        0 <= count <= usize::MAX,
    ensures
        forall|i: usize|
            i < count ==> (#[trigger] readers(config, source, count).contains(i)
                <==> config.sinks.values()[i as int].input_ids().contains(source)),
        readers(config, source, count).no_duplicates(),
        forall|i: usize| #[trigger] readers(config, source, count).contains(i) ==> i < count,
    decreases count,
{
    if count > 0 {
        destinations_are_the_sinks_that_name_the_source(config, source, count - 1);
        let before = readers(config, source, count - 1);
        let now = readers(config, source, count);
        let last = (count - 1) as usize;
        assert(!before.contains(last));
        if config.sinks.values()[count - 1].input_ids().contains(source) {
            assert(now[now.len() - 1] == last);
            assert forall|i: usize| #[trigger] now.contains(i) <==> before.contains(i) || i
                == last by {
                if before.contains(i) {
                    let k = choose|k: int| 0 <= k < before.len() && before[k] == i;
                    assert(now[k] == i);
                }
                if now.contains(i) {
                    let k = choose|k: int| 0 <= k < now.len() && now[k] == i;
                    if k < before.len() {
                        assert(before[k] == i);
                    }
                }
            }
            assert(now.no_duplicates()) by {
                assert forall|a: int, b: int|
                    0 <= a < b < now.len() implies now[a] != now[b] by {
                    if b == before.len() {
                        assert(before.contains(before[a]));
                    }
                }
            }
        }
    }
}

/// What a running topology is told.
#[derive(Debug)]
pub enum Ended<E> {
    /// The operator asked for a shutdown.
    Signal,
    /// A source task ended.
    Source(Result<(), E>),
    /// A sink task ended.
    Sink(Result<(), E>),
}

/// What a topology stops with when a task ends while `running` sources run; nothing
/// where it goes on.
pub open spec fn stopping<E>(running: usize, ended: Ended<E>) -> Option<Result<(), E>> {
    match ended {
        Ended::Signal => Some(Ok(())),
        Ended::Source(Err(error)) | Ended::Sink(Err(error)) => Some(Err(error)),
        Ended::Source(Ok(())) => if running == 1 {
            Some(Ok(()))
        } else {
            None
        },
        Ended::Sink(Ok(())) => None,
    }
}

/// A topology stops with the first failure, whoever fails; it stops well on a
/// signal, and when the last of its sources is done. Anything else leaves it
/// running.
pub proof fn what_stops_a_topology<E>(running: usize, ended: Ended<E>, error: E)
    requires
        running > 0,
    ensures
        stopping(running, Ended::Source(Err(error))) == Some(Err::<(), E>(error)),
        stopping(running, Ended::Sink(Err(error))) == Some(Err::<(), E>(error)),
        stopping(running, ended) matches Some(Err(cause)) ==> ended == Ended::Source(
            Err::<(), E>(cause),
        ) || ended == Ended::Sink(Err::<(), E>(cause)),
        (stopping(running, ended) matches Some(outcome) && outcome is Ok) <==> ended is Signal || (
        ended matches Ended::Source(result) && result is Ok && running == 1),
{
}

/// Decides when a topology stops, and with what outcome.
#[derive(Debug)]
pub struct Supervisor {
    sources: usize,
}

impl Supervisor {
    /// How many sources are running.
    pub closed spec fn running(self) -> usize {
        self.sources
    }

    pub fn new(sources: usize) -> (supervisor: Self)
        ensures
            supervisor.running() == sources,
    {
        Supervisor { sources }
    }

    /// Takes note of what ended. The topology stops on a signal, on the first
    /// failure, or once every source is done; a sink that exits cleanly is not
    /// itself a reason to tear it down, the sources notice through their closed
    /// channels.
    pub fn on_end<E>(&mut self, ended: Ended<E>) -> (outcome: Option<Result<(), E>>)
        requires
            ended is Source ==> old(self).running() > 0,
        ensures
            outcome == stopping(old(self).running(), ended),
            match ended {
                Ended::Signal => outcome == Some(Ok::<(), E>(())) && final(self).running()
                    == old(self).running(),
                Ended::Source(result) => {
                    &&& final(self).running() == old(self).running() - 1
                    &&& outcome == (match result {
                        Err(error) => Some(Err::<(), E>(error)),
                        Ok(()) => if final(self).running() == 0 {
                            Some(Ok(()))
                        } else {
                            None
                        },
                    })
                },
                Ended::Sink(result) => {
                    &&& final(self).running() == old(self).running()
                    &&& outcome == (match result {
                        Err(error) => Some(Err::<(), E>(error)),
                        Ok(()) => None,
                    })
                },
            },
    {
        match ended {
            Ended::Signal => Some(Ok(())),
            Ended::Source(result) => {
                self.sources = self.sources - 1;
                match result {
                    Err(error) => Some(Err(error)),
                    Ok(()) => if self.sources == 0 {
                        Some(Ok(()))
                    } else {
                        None
                    },
                }
            },
            Ended::Sink(result) => match result {
                Err(error) => Some(Err(error)),
                Ok(()) => None,
            },
        }
    }
}

/// The outcome of a run that stopped and was drained.
pub open spec fn overall<E>(stopped: Result<(), E>, drained: Result<(), E>) -> Result<(), E> {
    if stopped is Err {
        stopped
    } else {
        drained
    }
}

/// A run went well exactly when nothing failed, neither before it stopped nor while
/// it drained; what failed first is what is reported.
pub proof fn a_run_fails_with_its_first_failure<E>(
    stopped: Result<(), E>,
    drained: Result<(), E>,
    error: E,
)
    ensures
        overall(stopped, drained) is Ok <==> stopped is Ok && drained is Ok,
        stopped == Err::<(), E>(error) ==> overall(stopped, drained) == Err::<(), E>(error),
        stopped is Ok && drained == Err::<(), E>(error) ==> overall(stopped, drained) == Err::<
            (),
            E,
        >(error),
{
}

/// The outcome of a run: why it stopped, or else how draining the sinks went.
pub fn run_outcome<E>(stopped: Result<(), E>, drained: Result<(), E>) -> (outcome: Result<(), E>)
    ensures
        outcome == overall(stopped, drained),
        outcome == (match stopped {
            Ok(()) => drained,
            Err(error) => Err(error),
        }),
{
    match stopped {
        Ok(()) => drained,
        Err(error) => Err(error),
    }
}

} // verus!
