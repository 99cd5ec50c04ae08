//! The batch scheduler: a state machine that decides, from what has happened so far, what
//! an upload does next.
//!
//! The scheduler does no work of its own. Each call of [`Scheduler::step`] takes the outcome
//! of the last request and answers with the next one: pay for a batch, start a worker, wait
//! for a worker to finish, or stop. Whoever drives it performs the request and comes back
//! with the outcome.

use crate::address::Address;
use crate::chunks::{addresses_of, distinct_addresses, excluding, ChunkManager, ChunkManagerView, ChunkRef};
use crate::error::UploadError;
use crate::payment::{PaymentError, PaymentReceipt, Totals, MAX_SEQUENTIAL_PAYMENT_FAILS};
use vstd::prelude::*;

verus! {

/// Which answer the scheduler waits for.
#[derive(Clone, Copy, Debug, PartialEq, Eq)]
pub enum Phase {
    /// Nothing was asked yet.
    Idle,
    /// The payment for the current batch was asked for.
    Paying,
    /// A worker was asked to start.
    Dispatching,
    /// The end of some worker is awaited.
    Waiting,
    /// The run is over.
    Finished,
}

/// Where a chunk stands in a run.
#[derive(Clone, Copy, Debug, PartialEq, Eq)]
pub enum ChunkState {
    /// The chunk is still to be stored, and no worker has it.
    Pending,
    /// A worker is storing the chunk.
    InFlight,
    /// The network holds the chunk.
    Completed,
}

/// How an upload worker ended.
#[derive(Clone, Copy, Debug, PartialEq, Eq)]
pub enum WorkerOutcome {
    /// The chunk with this address is on the network.
    Stored(Address),
    /// The chunk with this address could not be stored. It stays pending.
    Failed(Address),
    /// The worker ended without a result.
    Crashed,
}

/// What happened since the scheduler's last request.
#[derive(Clone, Debug, PartialEq, Eq)]
pub enum Event {
    /// The run begins.
    Start,
    /// The batch was paid for.
    Paid(PaymentReceipt),
    /// The payment for the batch failed.
    PaymentFailed(PaymentError),
    /// The worker was started.
    Dispatched,
    /// A worker ended.
    WorkerFinished(WorkerOutcome),
}

/// The figures of a run that reached its end.
#[derive(Clone, Copy, Debug, PartialEq, Eq)]
pub struct UploadSummary {
    /// How many chunks the run set out to store.
    pub chunks: usize,
    /// How many chunks are still pending.
    pub unfinished: usize,
    /// How many retry passes were made.
    pub retries: usize,
    /// What was paid, and how many chunks the network already held.
    pub totals: Totals,
}

/// What the scheduler asks for next.
#[derive(Clone, Debug, PartialEq, Eq)]
pub enum Action {
    /// Pay for the chunks with these addresses, as one batch.
    Pay(Vec<Address>),
    /// Start a worker that stores this chunk.
    Dispatch(ChunkRef),
    /// Wait until some worker has ended.
    AwaitWorker,
    /// The run is complete.
    Done(UploadSummary),
    /// The run has failed.
    Abort(UploadError),
}

/// An [`Action`] as a mathematical value.
pub enum ActionView {
    Pay(Seq<Address>),
    Dispatch(ChunkRef),
    AwaitWorker,
    Done(UploadSummary),
    Abort(UploadError),
}

impl View for Action {
    type V = ActionView;

    open spec fn view(&self) -> ActionView {
        match *self {
            Action::Pay(addresses) => ActionView::Pay(addresses@),
            Action::Dispatch(chunk) => ActionView::Dispatch(chunk),
            Action::AwaitWorker => ActionView::AwaitWorker,
            Action::Done(summary) => ActionView::Done(summary),
            Action::Abort(error) => ActionView::Abort(error),
        }
    }
}

/// Where `address` first stands in `window`.
pub open spec fn place_of(window: Seq<Address>, address: Address) -> int {
    choose|i: int|
        0 <= i < window.len() && window[i] == address && forall|j: int|
            0 <= j < i ==> window[j] != address
}

/// A count of chunks that stops at the largest `usize` instead of wrapping.
pub open spec fn saturating_count(count: int) -> usize {
    if count > usize::MAX {
        usize::MAX
    } else {
        count as usize
    }
}

/// The mathematical state of a [`Scheduler`].
pub struct SchedulerView {
    /// The largest number of workers that may run at once. At least 1.
    pub batch_size: nat,
    /// The largest number of retry passes.
    pub max_retries: nat,
    /// The chunk manager of the run.
    pub manager: ChunkManagerView,
    /// The chunks of the current pass.
    pub queue: Seq<ChunkRef>,
    /// Where in `queue` the current batch begins.
    pub batch_start: nat,
    /// Where in `queue` the current batch ends, which is where the next one begins.
    pub batch_end: nat,
    /// The chunks of the current batch that were paid for and have no worker yet.
    pub dispatching: Seq<ChunkRef>,
    /// The window: the addresses of the chunks whose workers were started and have not
    /// been seen to end, in the order they were started.
    pub in_flight: Seq<Address>,
    /// How many retry passes were begun.
    pub retries: nat,
    /// How many batches in a row could not have their transfer verified.
    pub payment_fails: nat,
    /// The sums so far.
    pub totals: Totals,
    /// How many chunks the run set out to store.
    pub chunks_total: nat,
    /// Which answer is awaited.
    pub phase: Phase,
}

/// A state and the request made on reaching it.
pub struct Step {
    pub state: SchedulerView,
    pub action: ActionView,
}

impl SchedulerView {
    /// The state before the run begins: the first pass is over the pending chunks.
    pub open spec fn initial(
        manager: ChunkManagerView,
        batch_size: nat,
        max_retries: nat,
        balance: u64,
    ) -> Self {
        SchedulerView {
            batch_size,
            max_retries,
            manager,
            queue: manager.pending(),
            batch_start: 0,
            batch_end: 0,
            dispatching: Seq::empty(),
            in_flight: Seq::empty(),
            retries: 0,
            payment_fails: 0,
            totals: Totals { cost: 0, royalties: 0, balance, existing_chunks: 0 },
            chunks_total: manager.pending().len(),
            phase: Phase::Idle,
        }
    }

    /// What holds of every state the scheduler reaches.
    pub open spec fn wf(self) -> bool {
        &&& self.batch_size >= 1
        &&& self.manager.wf()
        &&& distinct_addresses(self.queue)
        &&& self.batch_start <= self.batch_end <= self.queue.len()
        &&& self.in_flight.len() <= self.batch_size
        &&& self.retries <= self.max_retries
        &&& self.payment_fails < MAX_SEQUENTIAL_PAYMENT_FAILS
        &&& self.paid_for()
        &&& self.phase is Waiting ==> self.in_flight.len() >= 1
        &&& self.phase is Idle ==> self.in_flight.len() == 0 && self.dispatching.len() == 0
        &&& self.phase is Paying ==> self.dispatching.len() == 0
    }

    /// Whether every chunk that waits for a worker belongs to the current batch.
    pub open spec fn paid_for(self) -> bool {
        forall|k: int|
            0 <= k < self.dispatching.len() ==> self.batch().contains(#[trigger] self.dispatching[k])
    }

    /// The chunks of the current batch.
    pub open spec fn batch(self) -> Seq<ChunkRef> {
        self.queue.subrange(self.batch_start as int, self.batch_end as int)
    }

    /// The same state with the run over.
    pub open spec fn finish(self) -> Self {
        SchedulerView { phase: Phase::Finished, ..self }
    }

    /// The run stops with `error`.
    pub open spec fn abort(self, error: UploadError) -> Step {
        Step { state: self.finish(), action: ActionView::Abort(error) }
    }

    /// The figures of the run as it stands.
    pub open spec fn summary(self) -> UploadSummary {
        UploadSummary {
            chunks: self.chunks_total as usize,
            unfinished: self.manager.pending().len() as usize,
            retries: self.retries as usize,
            totals: self.totals,
        }
    }

    /// The scheduler waits for a worker to end.
    pub open spec fn wait(self) -> Step {
        Step { state: SchedulerView { phase: Phase::Waiting, ..self }, action: ActionView::AwaitWorker }
    }

    /// The next batch of the pass, at most `batch_size` chunks from where the last one ended,
    /// is handed to the payment gateway.
    pub open spec fn pay_next_batch(self) -> Step {
        let end = if self.batch_end + self.batch_size < self.queue.len() {
            self.batch_end + self.batch_size
        } else {
            self.queue.len()
        };
        let state = SchedulerView {
            batch_start: self.batch_end,
            batch_end: end,
            phase: Phase::Paying,
            ..self
        };
        Step { state, action: ActionView::Pay(addresses_of(state.batch())) }
    }

    /// What the scheduler asks for when no request of its own is open.
    ///
    /// A paid chunk without a worker gets one; when none is left, the next batch is paid for;
    /// when the pass has no batch left, the window is drained; and when it is empty, either
    /// a retry pass begins over the chunks still pending, or the run ends. Before a worker is
    /// started or a batch paid for, a window that is full has to give way first.
    #[verifier::opaque]
    pub open spec fn advance(self) -> Step {
        if self.dispatching.len() > 0 {
            if self.in_flight.len() >= self.batch_size {
                self.wait()
            } else {
                Step {
                    state: SchedulerView {
                        dispatching: self.dispatching.drop_first(),
                        in_flight: self.in_flight.push(self.dispatching.first().address),
                        phase: Phase::Dispatching,
                        ..self
                    },
                    action: ActionView::Dispatch(self.dispatching.first()),
                }
            }
        } else if self.batch_end < self.queue.len() {
            if self.in_flight.len() >= self.batch_size {
                self.wait()
            } else {
                self.pay_next_batch()
            }
        } else if self.in_flight.len() > 0 {
            self.wait()
        } else if self.manager.pending().len() > 0 && self.retries < self.max_retries {
            SchedulerView {
                queue: self.manager.pending(),
                batch_start: 0,
                batch_end: 0,
                retries: self.retries + 1,
                ..self
            }.pay_next_batch()
        } else {
            Step { state: self.finish(), action: ActionView::Done(self.summary()) }
        }
    }

    /// The state after the receipt for the current batch was taken in: the sums have grown,
    /// the chunks that the network already holds are completed, and the others wait for a
    /// worker. Sums that no longer fit their counters end the run.
    pub open spec fn paid(self, receipt: PaymentReceipt) -> Result<SchedulerView, UploadError> {
        if self.totals.cost + receipt.storage_cost > u64::MAX {
            Err(UploadError::CostOverflow)
        } else if self.totals.royalties + receipt.royalties > u64::MAX {
            Err(UploadError::RoyaltiesOverflow)
        } else {
            Ok(
                SchedulerView {
                    totals: Totals {
                        cost: (self.totals.cost + receipt.storage_cost) as u64,
                        royalties: (self.totals.royalties + receipt.royalties) as u64,
                        balance: receipt.new_balance,
                        existing_chunks: saturating_count(
                            self.totals.existing_chunks + receipt.skipped@.len(),
                        ),
                    },
                    manager: self.manager.mark_completed(receipt.skipped@.to_set()),
                    dispatching: excluding(self.batch(), receipt.skipped@.to_set()),
                    payment_fails: 0,
                    ..self
                },
            )
        }
    }

    /// The state after the failure of the payment for the current batch was taken in: a
    /// transfer that could not be verified costs the batch its turn, and the run its life at
    /// the third such failure in a row; any other failure ends the run at once.
    pub open spec fn payment_failed(self, error: PaymentError) -> Result<SchedulerView, UploadError> {
        match error {
            PaymentError::NotEnoughBalance { available, required } => Err(
                UploadError::NotEnoughBalance { available, required },
            ),
            PaymentError::CouldNotVerifyTransfer => {
                if self.payment_fails + 1 >= MAX_SEQUENTIAL_PAYMENT_FAILS {
                    Err(UploadError::TooManyPaymentFails { fails: (self.payment_fails + 1) as usize })
                } else {
                    Ok(SchedulerView { payment_fails: self.payment_fails + 1, ..self })
                }
            },
            PaymentError::Other(reason) => Err(UploadError::Payment(reason)),
        }
    }

    /// The same state with the worker for `address` gone from the window.
    pub open spec fn leave(self, address: Address) -> Self {
        SchedulerView { in_flight: self.in_flight.remove(place_of(self.in_flight, address)), ..self }
    }

    /// The state after the end of a worker was taken in: its place in the window is free,
    /// and the chunk it stored is completed. A worker for a chunk that is not in the window
    /// cannot have ended, and a worker without a result ends the run.
    pub open spec fn worker_ended(self, outcome: WorkerOutcome) -> Result<SchedulerView, UploadError> {
        match outcome {
            WorkerOutcome::Stored(address) => if self.in_flight.contains(address) {
                Ok(
                    SchedulerView {
                        manager: self.manager.mark_completed(set![address]),
                        ..self.leave(address)
                    },
                )
            } else {
                Err(UploadError::UnexpectedEvent)
            },
            WorkerOutcome::Failed(address) => if self.in_flight.contains(address) {
                Ok(self.leave(address))
            } else {
                Err(UploadError::UnexpectedEvent)
            },
            WorkerOutcome::Crashed => Err(UploadError::WorkerCrashed),
        }
    }

    /// Where the chunk with this address stands: completed, in the window, or pending.
    /// A chunk that is not known stands nowhere.
    pub open spec fn state_of(self, address: Address) -> Option<ChunkState> {
        if !self.manager.knows(address) {
            None
        } else if self.manager.completed.contains(address) {
            Some(ChunkState::Completed)
        } else if self.in_flight.contains(address) {
            Some(ChunkState::InFlight)
        } else {
            Some(ChunkState::Pending)
        }
    }

    /// The state after `event` was taken in, before the next request is made; or why the
    /// event ends the run. An event that does not answer the open request ends it.
    pub open spec fn take_in(self, event: Event) -> Result<SchedulerView, UploadError> {
        match (self.phase, event) {
            (Phase::Idle, Event::Start) => Ok(self),
            (Phase::Paying, Event::Paid(receipt)) => self.paid(receipt),
            (Phase::Paying, Event::PaymentFailed(error)) => self.payment_failed(error),
            (Phase::Dispatching, Event::Dispatched) => Ok(self),
            (Phase::Waiting, Event::WorkerFinished(outcome)) => self.worker_ended(outcome),
            _ => Err(UploadError::UnexpectedEvent),
        }
    }

    /// The request that follows once an event was taken in: the request that is due, or
    /// the end of the run.
    pub open spec fn proceed(self, taken: Result<SchedulerView, UploadError>) -> Step {
        match taken {
            Ok(state) => state.advance(),
            Err(error) => self.abort(error),
        }
    }

    /// The state and the request that follow `event`.
    pub open spec fn next(self, event: Event) -> Step {
        self.proceed(self.take_in(event))
    }
}

impl SchedulerView {
    /// What holds of every state, whichever answer is awaited.
    pub open spec fn inv(self) -> bool {
        &&& self.batch_size >= 1
        &&& self.manager.wf()
        &&& distinct_addresses(self.queue)
        &&& self.batch_start <= self.batch_end <= self.queue.len()
        &&& self.in_flight.len() <= self.batch_size
        &&& self.retries <= self.max_retries
        &&& self.payment_fails < MAX_SEQUENTIAL_PAYMENT_FAILS
        &&& self.paid_for()
    }

    /// A worker that leaves the window makes it smaller by one.
    pub proof fn lemma_leave(self, address: Address)
        requires
            self.in_flight.contains(address),
        ensures
            0 <= place_of(self.in_flight, address) < self.in_flight.len(),
            self.in_flight[place_of(self.in_flight, address)] == address,
            self.leave(address).in_flight.len() == self.in_flight.len() - 1,
    {
        lemma_place_of(self.in_flight, address);
        self.in_flight.remove_ensures(place_of(self.in_flight, address));
    }

    /// Every request is made from a well-formed state.
    pub proof fn lemma_advance_wf(self)
        requires
            self.inv(),
        ensures
            self.advance().state.wf(),
    {
        reveal(SchedulerView::advance);
        self.manager.lemma_pending_distinct();
    }

    /// What the request that is due changes. It touches neither the chunk manager nor the
    /// sums nor the count of failed payments, and it never ends a run in failure. A worker is
    /// started exactly when a paid chunk waits and the window has a free place: the chunk is
    /// the first that waits, and it joins the window. A payment is asked for the batch that
    /// is current afterwards, which begins where the last batch ended unless a new pass begins.
    pub proof fn lemma_advance_effect(self)
        ensures
            ({
                let step = self.advance();
                &&& step.state.manager == self.manager
                &&& step.state.totals == self.totals
                &&& step.state.payment_fails == self.payment_fails
                &&& step.state.batch_size == self.batch_size
                &&& step.state.max_retries == self.max_retries
                &&& step.state.chunks_total == self.chunks_total
                &&& step.state.retries >= self.retries
                &&& step.state.retries == self.retries ==> step.state.queue == self.queue
                    && step.state.batch_end >= self.batch_end
                &&& step.action is Dispatch <==> self.dispatching.len() > 0 && self.in_flight.len()
                    < self.batch_size
                &&& step.action matches ActionView::Dispatch(chunk) ==> chunk
                    == self.dispatching.first() && step.state.in_flight == self.in_flight.push(
                    chunk.address,
                ) && step.state.batch() == self.batch()
                &&& !(step.action is Dispatch) ==> step.state.in_flight == self.in_flight
                &&& step.action matches ActionView::Pay(addresses) ==> addresses == addresses_of(
                    step.state.batch(),
                ) && (step.state.retries == self.retries ==> step.state.batch_start
                    == self.batch_end)
                &&& step.action matches ActionView::Done(summary) ==> summary == self.summary()
                    && self.in_flight.len() == 0
                &&& !(step.action is Abort)
                &&& step.state.phase is Finished <==> step.action is Done
            }),
    {
        reveal(SchedulerView::advance);
    }

    /// An event that is taken in leaves a state from which the next request can be made.
    pub proof fn lemma_take_in_inv(self, event: Event)
        requires
            self.wf(),
        ensures
            self.take_in(event) matches Ok(state) ==> state.inv() && state.batch_size
                == self.batch_size && state.max_retries == self.max_retries,
    {
        match (self.phase, event) {
            (Phase::Paying, Event::Paid(receipt)) => {
                self.manager.lemma_mark_completed_wf(receipt.skipped@.to_set());
                crate::chunks::lemma_excluding_members(self.batch(), receipt.skipped@.to_set());
            },
            (Phase::Waiting, Event::WorkerFinished(outcome)) => {
                match outcome {
                    WorkerOutcome::Stored(address) => {
                        if self.in_flight.contains(address) {
                            self.lemma_leave(address);
                            self.manager.lemma_mark_completed_wf(set![address]);
                        }
                    },
                    WorkerOutcome::Failed(address) => {
                        if self.in_flight.contains(address) {
                            self.lemma_leave(address);
                        }
                    },
                    WorkerOutcome::Crashed => {},
                }
            },
            _ => {},
        }
    }

    /// Every event leads from a well-formed state to a well-formed state, and leaves the
    /// limits of the run as they are.
    pub proof fn lemma_next_wf(self, event: Event)
        requires
            self.wf(),
        ensures
            self.next(event).state.wf(),
            self.next(event).state.batch_size == self.batch_size,
            self.next(event).state.max_retries == self.max_retries,
    {
        self.lemma_take_in_inv(event);
        if let Ok(state) = self.take_in(event) {
            state.lemma_advance_wf();
            state.lemma_advance_effect();
        }
    }
}

/// An address that stands in a window has a first place there.
pub proof fn lemma_place_of(window: Seq<Address>, address: Address)
    requires
        window.contains(address),
    ensures
        0 <= place_of(window, address) < window.len(),
        window[place_of(window, address)] == address,
        forall|j: int| 0 <= j < place_of(window, address) ==> window[j] != address,
{
    lemma_first_place(window, address, window.len() as int);
}

/// An address that stands among the first `upto` of a window has a first place there.
proof fn lemma_first_place(window: Seq<Address>, address: Address, upto: int)
    requires
        0 <= upto <= window.len(),
        exists|i: int| 0 <= i < upto && window[i] == address,
    ensures
        exists|i: int|
            0 <= i < upto && window[i] == address && forall|j: int| 0 <= j < i ==> window[j] != address,
    decreases upto,
{
    if exists|i: int| 0 <= i < upto - 1 && window[i] == address {
        lemma_first_place(window, address, upto - 1);
        let i = choose|i: int|
            0 <= i < upto - 1 && window[i] == address && forall|j: int| 0 <= j < i ==> window[j] != address;
        assert(0 <= i < upto && window[i] == address && forall|j: int| 0 <= j < i ==> window[j] != address);
    } else {
        let i = upto - 1;
        assert(window[i] == address);
        assert(0 <= i < upto && window[i] == address && forall|j: int| 0 <= j < i ==> window[j] != address);
    }
}

/// Decides what an upload does next.
pub struct Scheduler {
    batch_size: usize,
    max_retries: usize,
    manager: ChunkManager,
    queue: Vec<ChunkRef>,
    batch_start: usize,
    batch_end: usize,
    dispatching: Vec<ChunkRef>,
    dispatch_next: usize,
    in_flight: Vec<Address>,
    retries: usize,
    payment_fails: usize,
    totals: Totals,
    chunks_total: usize,
    phase: Phase,
}

impl View for Scheduler {
    type V = SchedulerView;

    closed spec fn view(&self) -> SchedulerView {
        SchedulerView {
            batch_size: self.batch_size as nat,
            max_retries: self.max_retries as nat,
            manager: self.manager@,
            queue: self.queue@,
            batch_start: self.batch_start as nat,
            batch_end: self.batch_end as nat,
            dispatching: self.dispatching@.skip(self.dispatch_next as int),
            in_flight: self.in_flight@,
            retries: self.retries as nat,
            payment_fails: self.payment_fails as nat,
            totals: self.totals,
            chunks_total: self.chunks_total as nat,
            phase: self.phase,
        }
    }
}

/// Whether `address` is one of `addresses`.
fn contains_address(addresses: &Vec<Address>, address: &Address) -> (found: bool)
    ensures
        found == addresses@.contains(*address),
{
    let mut i: usize = 0;
    while i < addresses.len()
        invariant
            i <= addresses@.len(),
            forall|k: int| 0 <= k < i ==> addresses@[k] != *address,
        decreases addresses@.len() - i,
    {
        if addresses[i].same(address) {
            return true;
        }
        i = i + 1;
    }
    false
}

impl Scheduler {
    /// Whether the scheduler is in a state it can have reached.
    pub closed spec fn wf(&self) -> bool {
        &&& self@.wf()
        &&& self.dispatch_next <= self.dispatching@.len()
    }

    /// Whether this scheduler is what `before` becomes by an event whose taking in is
    /// `expected`, reported as `taken`: the expected state, ready for the next request, or
    /// `before` as it was together with the reason for the end of the run.
    spec fn took_in(
        self,
        before: Scheduler,
        expected: Result<SchedulerView, UploadError>,
        taken: Result<(), UploadError>,
    ) -> bool {
        match expected {
            Ok(state) => taken is Ok && self@ == state && state.inv() && self.dispatch_next
                <= self.dispatching@.len(),
            Err(error) => taken == Err::<(), UploadError>(error) && self == before,
        }
    }

    /// A scheduler for the chunks that `manager` holds pending, with at most `batch_size`
    /// workers at once and at most `max_retries` passes after the first. `balance` is what
    /// the wallet holds.
    pub fn new(manager: ChunkManager, batch_size: usize, max_retries: usize, balance: u64) -> (scheduler:
        Scheduler)
        requires
            batch_size >= 1,
            manager@.wf(),
        ensures
            scheduler.wf(),
            scheduler@.wf(),
            scheduler@ == SchedulerView::initial(
                manager@,
                batch_size as nat,
                max_retries as nat,
                balance,
            ),
    {
        let queue = manager.get_chunks();
        let chunks_total = queue.len();
        proof {
            manager@.lemma_pending_distinct();
        }
        let scheduler = Scheduler {
            batch_size,
            max_retries,
            manager,
            queue,
            batch_start: 0,
            batch_end: 0,
            dispatching: Vec::new(),
            dispatch_next: 0,
            in_flight: Vec::new(),
            retries: 0,
            payment_fails: 0,
            totals: Totals { cost: 0, royalties: 0, balance, existing_chunks: 0 },
            chunks_total,
            phase: Phase::Idle,
        };
        assert(scheduler@.dispatching =~= Seq::empty());
        scheduler
    }

    /// Which answer the scheduler waits for.
    pub fn phase(&self) -> (phase: Phase)
        ensures
            phase == self@.phase,
    {
        self.phase
    }

    /// The largest number of workers that may run at once.
    pub fn batch_size(&self) -> (batch_size: usize)
        ensures
            batch_size == self@.batch_size,
    {
        self.batch_size
    }

    /// The largest number of retry passes.
    pub fn max_retries(&self) -> (max_retries: usize)
        ensures
            max_retries == self@.max_retries,
    {
        self.max_retries
    }

    /// How many workers were started and have not been seen to end.
    pub fn in_flight(&self) -> (in_flight: usize)
        ensures
            in_flight == self@.in_flight.len(),
    {
        self.in_flight.len()
    }

    /// Where the chunk with this address stands in the run, if it is known.
    pub fn chunk_state(&self, address: &Address) -> (state: Option<ChunkState>)
        requires
            self.wf(),
        ensures
            state == self@.state_of(*address),
    {
        match self.manager.is_completed(address) {
            None => None,
            Some(true) => Some(ChunkState::Completed),
            Some(false) => if contains_address(&self.in_flight, address) {
                Some(ChunkState::InFlight)
            } else {
                Some(ChunkState::Pending)
            },
        }
    }

    /// How many retry passes were begun.
    pub fn retries(&self) -> (retries: usize)
        ensures
            retries == self@.retries,
    {
        self.retries
    }

    /// How many batches in a row could not have their transfer verified.
    pub fn payment_fails(&self) -> (fails: usize)
        ensures
            fails == self@.payment_fails,
    {
        self.payment_fails
    }

    /// The sums so far.
    pub fn totals(&self) -> (totals: Totals)
        ensures
            totals == self@.totals,
    {
        self.totals
    }

    /// The chunk manager of the run.
    pub fn manager(&self) -> (manager: &ChunkManager)
        ensures
            manager@ == self@.manager,
    {
        &self.manager
    }

    /// Gives the chunk manager back when the run is over.
    pub fn into_manager(self) -> (manager: ChunkManager)
        ensures
            manager@ == self@.manager,
    {
        self.manager
    }

    /// Ends the run with `error`.
    fn abort(&mut self, error: UploadError) -> (action: Action)
        requires
            old(self).wf(),
        ensures
            final(self).wf(),
            final(self)@ == old(self)@.abort(error).state,
            action@ == old(self)@.abort(error).action,
    {
        self.phase = Phase::Finished;
        Action::Abort(error)
    }

    /// Asks to wait for a worker.
    fn wait(&mut self) -> (action: Action)
        requires
            old(self)@.inv(),
            old(self).dispatch_next <= old(self).dispatching@.len(),
            old(self).in_flight@.len() >= 1,
        ensures
            final(self).wf(),
            final(self)@ == old(self)@.wait().state,
            action@ == old(self)@.wait().action,
    {
        self.phase = Phase::Waiting;
        Action::AwaitWorker
    }

    /// Hands the next batch of the pass to the payment gateway.
    fn pay_next_batch(&mut self) -> (action: Action)
        requires
            old(self)@.inv(),
            old(self).dispatch_next <= old(self).dispatching@.len(),
        ensures
            final(self).dispatch_next <= final(self).dispatching@.len(),
            final(self)@ == old(self)@.pay_next_batch().state,
            action@ == old(self)@.pay_next_batch().action,
    {
        let len = self.queue.len();
        let end = if len - self.batch_end > self.batch_size {
            self.batch_end + self.batch_size
        } else {
            len
        };
        self.batch_start = self.batch_end;
        self.batch_end = end;
        self.phase = Phase::Paying;
        let mut addresses: Vec<Address> = Vec::new();
        let mut i: usize = self.batch_start;
        while i < end
            invariant
                self.batch_start <= i <= end <= self.queue@.len(),
                addresses@ == addresses_of(self.queue@.subrange(self.batch_start as int, i as int)),
            decreases end - i,
        {
            addresses.push(self.queue[i].address);
            assert(addresses@ =~= addresses_of(
                self.queue@.subrange(self.batch_start as int, i as int + 1),
            ));
            i = i + 1;
        }
        Action::Pay(addresses)
    }

    /// The chunks of the current batch that are not in `skipped`.
    fn unskipped(&self, skipped: &Vec<Address>) -> (chunks: Vec<ChunkRef>)
        requires
            self.batch_start <= self.batch_end <= self.queue@.len(),
        ensures
            chunks@ == excluding(self@.batch(), skipped@.to_set()),
    {
        let ghost batch = self@.batch();
        let mut chunks: Vec<ChunkRef> = Vec::new();
        let mut i: usize = self.batch_start;
        while i < self.batch_end
            invariant
                self.batch_start <= i <= self.batch_end <= self.queue@.len(),
                batch == self.queue@.subrange(self.batch_start as int, self.batch_end as int),
                chunks@ == excluding(batch.take(i - self.batch_start), skipped@.to_set()),
            decreases self.batch_end - i,
        {
            proof {
                crate::chunks::lemma_excluding_step(batch, skipped@.to_set(), i - self.batch_start);
            }
            if !contains_address(skipped, &self.queue[i].address) {
                chunks.push(self.queue[i].clone());
            }
            i = i + 1;
        }
        assert(batch.take(i - self.batch_start) =~= batch);
        chunks
    }

    /// Makes the request that is due when none is open.
    fn advance(&mut self) -> (action: Action)
        requires
            old(self)@.inv(),
            old(self).dispatch_next <= old(self).dispatching@.len(),
        ensures
            final(self).wf(),
            final(self)@ == old(self)@.advance().state,
            action@ == old(self)@.advance().action,
    {
        proof {
            reveal(SchedulerView::advance);
            self@.lemma_advance_wf();
        }
        if self.dispatch_next < self.dispatching.len() {
            if self.in_flight.len() >= self.batch_size {
                self.wait()
            } else {
                let chunk = self.dispatching[self.dispatch_next].clone();
                proof {
                    assert(self@.dispatching.drop_first() =~= self.dispatching@.skip(
                        self.dispatch_next + 1,
                    ));
                }
                self.dispatch_next = self.dispatch_next + 1;
                self.in_flight.push(chunk.address);
                self.phase = Phase::Dispatching;
                Action::Dispatch(chunk)
            }
        } else if self.batch_end < self.queue.len() {
            if self.in_flight.len() >= self.batch_size {
                self.wait()
            } else {
                self.pay_next_batch()
            }
        } else if self.in_flight.len() > 0 {
            self.wait()
        } else {
            let pending = self.manager.get_chunks();
            if pending.len() > 0 && self.retries < self.max_retries {
                proof {
                    self.manager@.lemma_pending_distinct();
                }
                self.queue = pending;
                self.batch_start = 0;
                self.batch_end = 0;
                self.retries = self.retries + 1;
                self.pay_next_batch()
            } else {
                let summary = UploadSummary {
                    chunks: self.chunks_total,
                    unfinished: pending.len(),
                    retries: self.retries,
                    totals: self.totals,
                };
                self.phase = Phase::Finished;
                Action::Done(summary)
            }
        }
    }

    /// Takes in the receipt for the current batch.
    fn paid(&mut self, receipt: PaymentReceipt) -> (taken: Result<(), UploadError>)
        requires
            old(self).wf(),
        ensures
            final(self).took_in(*old(self), old(self)@.paid(receipt), taken),
    {
        let cost = match self.totals.cost.checked_add(receipt.storage_cost) {
            Some(cost) => cost,
            None => {
                return Err(UploadError::CostOverflow);
            },
        };
        let royalties = match self.totals.royalties.checked_add(receipt.royalties) {
            Some(royalties) => royalties,
            None => {
                return Err(UploadError::RoyaltiesOverflow);
            },
        };
        let dispatching = self.unskipped(&receipt.skipped);
        proof {
            self@.manager.lemma_mark_completed_wf(receipt.skipped@.to_set());
            crate::chunks::lemma_excluding_members(self@.batch(), receipt.skipped@.to_set());
        }
        self.totals = Totals {
            cost,
            royalties,
            balance: receipt.new_balance,
            existing_chunks: self.totals.existing_chunks.saturating_add(receipt.skipped.len()),
        };
        self.manager.mark_completed(&receipt.skipped);
        self.dispatching = dispatching;
        self.dispatch_next = 0;
        self.payment_fails = 0;
        assert(self.dispatching@.skip(0) =~= self.dispatching@);
        Ok(())
    }

    /// Takes in the failure of the payment for the current batch.
    fn payment_failed(&mut self, error: PaymentError) -> (taken: Result<(), UploadError>)
        requires
            old(self).wf(),
        ensures
            final(self).took_in(*old(self), old(self)@.payment_failed(error), taken),
    {
        match error {
            PaymentError::NotEnoughBalance { available, required } => Err(
                UploadError::NotEnoughBalance { available, required },
            ),
            PaymentError::CouldNotVerifyTransfer => {
                let fails = self.payment_fails + 1;
                if fails >= MAX_SEQUENTIAL_PAYMENT_FAILS {
                    Err(UploadError::TooManyPaymentFails { fails })
                } else {
                    self.payment_fails = fails;
                    Ok(())
                }
            },
            PaymentError::Other(reason) => Err(UploadError::Payment(reason)),
        }
    }

    /// Takes the worker for `address` out of the window, if it is there.
    fn leave(&mut self, address: &Address) -> (left: bool)
        requires
            old(self).wf(),
        ensures
            left == old(self)@.in_flight.contains(*address),
            left ==> final(self)@ == old(self)@.leave(*address),
            !left ==> *final(self) == *old(self),
            final(self)@.inv(),
            final(self).dispatch_next <= final(self).dispatching@.len(),
    {
        let mut i: usize = 0;
        while i < self.in_flight.len()
            invariant
                i <= self.in_flight@.len(),
                old(self).wf(),
                *self == *old(self),
                forall|j: int| 0 <= j < i ==> self.in_flight@[j] != *address,
            decreases self.in_flight@.len() - i,
        {
            if self.in_flight[i].same(address) {
                proof {
                    lemma_place_of(self.in_flight@, *address);
                    let first = place_of(self.in_flight@, *address);
                    if first < i {
                        assert(self.in_flight@[first] != *address);
                    }
                    if i < first {
                        assert(self.in_flight@[i as int] != *address);
                    }
                    self@.lemma_leave(*address);
                }
                self.in_flight.remove(i);
                return true;
            }
            i = i + 1;
        }
        false
    }

    /// Takes in the end of a worker.
    fn worker_ended(&mut self, outcome: WorkerOutcome) -> (taken: Result<(), UploadError>)
        requires
            old(self).wf(),
        ensures
            final(self).took_in(*old(self), old(self)@.worker_ended(outcome), taken),
    {
        match outcome {
            WorkerOutcome::Stored(address) => {
                if !self.leave(&address) {
                    return Err(UploadError::UnexpectedEvent);
                }
                proof {
                    self@.manager.lemma_mark_completed_wf(set![address]);
                }
                let mut stored: Vec<Address> = Vec::new();
                stored.push(address);
                assert(stored@.to_set() =~= set![address]) by {
                    assert(stored@[0] == address);
                }
                self.manager.mark_completed(&stored);
                Ok(())
            },
            WorkerOutcome::Failed(address) => {
                if !self.leave(&address) {
                    return Err(UploadError::UnexpectedEvent);
                }
                Ok(())
            },
            WorkerOutcome::Crashed => Err(UploadError::WorkerCrashed),
        }
    }

    /// Takes in what happened and answers with what to do next.
    ///
    /// The first event of a run is [`Event::Start`]; each later event is the outcome of the
    /// request that the call before returned. After [`Action::Done`] or [`Action::Abort`]
    /// the run is over.
    pub fn step(&mut self, event: Event) -> (action: Action)
        requires
            old(self).wf(),
        ensures
            final(self).wf(),
            final(self)@.wf(),
            final(self)@ == old(self)@.next(event).state,
            action@ == old(self)@.next(event).action,
    {
        let taken = match event {
            Event::Start => match self.phase {
                Phase::Idle => Ok(()),
                _ => Err(UploadError::UnexpectedEvent),
            },
            Event::Paid(receipt) => match self.phase {
                Phase::Paying => self.paid(receipt),
                _ => Err(UploadError::UnexpectedEvent),
            },
            Event::PaymentFailed(error) => match self.phase {
                Phase::Paying => self.payment_failed(error),
                _ => Err(UploadError::UnexpectedEvent),
            },
            Event::Dispatched => match self.phase {
                Phase::Dispatching => Ok(()),
                _ => Err(UploadError::UnexpectedEvent),
            },
            Event::WorkerFinished(outcome) => match self.phase {
                Phase::Waiting => self.worker_ended(outcome),
                _ => Err(UploadError::UnexpectedEvent),
            },
        };
        assert(self.took_in(*old(self), old(self)@.take_in(event), taken));
        match taken {
            Ok(()) => self.advance(),
            Err(error) => self.abort(error),
        }
    }
}

} // verus!
