//! What holds of every run of the scheduler, whatever the payment gateway and the workers
//! answer.

use crate::address::Address;
use crate::chunks::addresses_of;
use crate::error::UploadError;
use crate::payment::MAX_SEQUENTIAL_PAYMENT_FAILS;
use crate::scheduler::{ActionView, Event, Phase, SchedulerView, WorkerOutcome};
use vstd::prelude::*;

verus! {

impl SchedulerView {
    /// The state reached from this one after `events`, each answered in its turn.
    pub open spec fn run(self, events: Seq<Event>) -> SchedulerView
        decreases events.len(),
    {
        if events.len() == 0 {
            self
        } else {
            self.run(events.drop_last()).next(events.last()).state
        }
    }

    /// The request made in answer to the event at `index` of `events`.
    pub open spec fn request(self, events: Seq<Event>, index: int) -> ActionView {
        self.run(events.take(index)).next(events[index]).action
    }

    /// The number of the pass in which the event at `index` of `events` was answered:
    /// 0 for the first pass, one more for each retry pass.
    pub open spec fn pass_of(self, events: Seq<Event>, index: int) -> nat {
        self.run(events.take(index + 1)).retries
    }

    /// Whether `event` tells this state that a worker of the window has ended with a result.
    pub open spec fn frees_a_place(self, event: Event) -> bool {
        self.phase is Waiting && match event {
            Event::WorkerFinished(WorkerOutcome::Stored(address)) => self.in_flight.contains(address),
            Event::WorkerFinished(WorkerOutcome::Failed(address)) => self.in_flight.contains(address),
            _ => false,
        }
    }

    /// A run from a well-formed state stays well formed and keeps its limits.
    pub proof fn lemma_run_wf(self, events: Seq<Event>)
        requires
            self.wf(),
        ensures
            self.run(events).wf(),
            self.run(events).batch_size == self.batch_size,
            self.run(events).max_retries == self.max_retries,
        decreases events.len(),
    {
        if events.len() > 0 {
            self.lemma_run_wf(events.drop_last());
            self.run(events.drop_last()).lemma_next_wf(events.last());
        }
    }

    /// At no point of a run are more than `batch_size` workers under way.
    pub proof fn lemma_window_bounded(self, events: Seq<Event>)
        requires
            self.wf(),
        ensures
            self.run(events).in_flight.len() <= self.batch_size,
    {
        self.lemma_run_wf(events);
    }

    /// The window counts workers: it grows by one with each request to start a worker and
    /// shrinks by one with each worker that ends with a result, and changes with nothing
    /// else. A worker is only started where the window has a free place.
    pub proof fn lemma_window_accounting(self, event: Event)
        requires
            self.wf(),
        ensures
            self.next(event).state.in_flight.len() == self.in_flight.len() - (if self.frees_a_place(
                event,
            ) {
                1int
            } else {
                0int
            }) + (if self.next(event).action is Dispatch {
                1int
            } else {
                0int
            }),
            self.next(event).action is Dispatch ==> self.in_flight.len() - (if self.frees_a_place(
                event,
            ) {
                1int
            } else {
                0int
            }) < self.batch_size,
    {
        if self.frees_a_place(event) {
            match event {
                Event::WorkerFinished(WorkerOutcome::Stored(address)) => self.lemma_leave(address),
                Event::WorkerFinished(WorkerOutcome::Failed(address)) => self.lemma_leave(address),
                _ => {},
            }
        }
        if let Ok(state) = self.take_in(event) {
            state.lemma_advance_effect();
        }
    }

    /// No run begins more than `max_retries` retry passes.
    pub proof fn lemma_retries_bounded(self, events: Seq<Event>)
        requires
            self.wf(),
        ensures
            self.run(events).retries <= self.max_retries,
    {
        self.lemma_run_wf(events);
    }

    /// A chunk that is completed stays completed through every event, and the chunks known
    /// stay the same, so no chunk that was completed is ever pending again.
    pub proof fn lemma_completed_stays(self, events: Seq<Event>, address: Address)
        requires
            self.manager.completed.contains(address),
        ensures
            self.run(events).manager.completed.contains(address),
            self.run(events).manager.chunks == self.manager.chunks,
            forall|k: int|
                0 <= k < self.run(events).manager.pending().len() ==> (
                #[trigger] self.run(events).manager.pending()[k]).address != address,
        decreases events.len(),
    {
        if events.len() > 0 {
            let before = self.run(events.drop_last());
            self.lemma_completed_stays(events.drop_last(), address);
            if let Ok(state) = before.take_in(events.last()) {
                state.lemma_advance_effect();
            }
        }
        crate::chunks::lemma_excluding_members(
            self.run(events).manager.chunks,
            self.run(events).manager.completed,
        );
    }
}

impl SchedulerView {
    /// Whether `event` tells this state that the batch was paid for and the sums still fit.
    pub open spec fn is_payment(self, event: Event) -> bool {
        self.phase is Paying && (event matches Event::Paid(receipt) && self.totals.cost
            + receipt.storage_cost <= u64::MAX && self.totals.royalties + receipt.royalties
            <= u64::MAX)
    }

    /// Whether `event` tells this state that the transfer for the batch could not be verified.
    pub open spec fn is_soft_failure(self, event: Event) -> bool {
        self.phase is Paying && (event matches Event::PaymentFailed(error) && error
            is CouldNotVerifyTransfer)
    }

    /// The cap on payments that cannot be verified. The counter holds the number of such
    /// failures since the last payment that went through: a failure adds one, a payment
    /// sets it back to nothing, and no other event touches it. The run is given up for this
    /// reason exactly when the failure is the third of its row, and the batch whose payment
    /// failed gets no worker.
    pub proof fn lemma_payment_fails_capped(self, event: Event)
        requires
            self.wf(),
        ensures
            self.next(event).state.payment_fails == if self.is_payment(event) {
                0
            } else if self.is_soft_failure(event) && self.payment_fails + 1
                < MAX_SEQUENTIAL_PAYMENT_FAILS {
                self.payment_fails + 1
            } else {
                self.payment_fails
            },
            (self.next(event).action matches ActionView::Abort(error) && error
                is TooManyPaymentFails) <==> (self.is_soft_failure(event) && self.payment_fails + 1
                == MAX_SEQUENTIAL_PAYMENT_FAILS),
            self.is_soft_failure(event) ==> !(self.next(event).action is Dispatch),
    {
        if let Ok(state) = self.take_in(event) {
            state.lemma_advance_effect();
        }
    }

    /// A run is the run over its first events followed by the run over the rest.
    pub proof fn lemma_run_split(self, first: Seq<Event>, rest: Seq<Event>)
        ensures
            self.run(first + rest) == self.run(first).run(rest),
        decreases rest.len(),
    {
        if rest.len() == 0 {
            assert(first + rest =~= first);
        } else {
            self.lemma_run_split(first, rest.drop_last());
            assert((first + rest).drop_last() =~= first + rest.drop_last());
            assert((first + rest).last() == rest.last());
        }
    }

    /// Through a run the number of passes never falls, and while it stays the same the
    /// queue stays the same and the batches only move forward in it.
    pub proof fn lemma_pass_advances(self, events: Seq<Event>)
        requires
            self.wf(),
        ensures
            self.run(events).retries >= self.retries,
            self.run(events).retries == self.retries ==> self.run(events).queue == self.queue
                && self.run(events).batch_end >= self.batch_end,
        decreases events.len(),
    {
        if events.len() > 0 {
            self.lemma_pass_advances(events.drop_last());
            self.lemma_run_wf(events.drop_last());
            self.run(events.drop_last()).lemma_step_advances(events.last());
        }
    }

    /// What one answer of a run does to the pass and its queue.
    pub proof fn lemma_answer(self, events: Seq<Event>, index: int)
        requires
            self.wf(),
            0 <= index < events.len(),
        ensures
            self.run(events.take(index)).wf(),
            self.run(events.take(index + 1)).wf(),
            self.run(events.take(index + 1)).retries >= self.run(events.take(index)).retries,
            self.run(events.take(index + 1)).retries == self.run(events.take(index)).retries ==> {
                &&& self.run(events.take(index + 1)).queue == self.run(events.take(index)).queue
                &&& self.run(events.take(index + 1)).batch_end >= self.run(
                    events.take(index),
                ).batch_end
            },
            self.request(events, index) is Pay ==> {
                &&& self.request(events, index)->Pay_0 == addresses_of(
                    self.run(events.take(index + 1)).batch(),
                )
                &&& self.run(events.take(index + 1)).retries == self.run(events.take(index)).retries
                    ==> self.run(events.take(index + 1)).batch_start == self.run(
                    events.take(index),
                ).batch_end
            },
    {
        let before = self.run(events.take(index));
        assert(events.take(index + 1).drop_last() =~= events.take(index));
        assert(events.take(index + 1).last() == events[index]);
        assert(self.run(events.take(index + 1)) == before.next(events[index]).state);
        self.lemma_run_wf(events.take(index));
        self.lemma_run_wf(events.take(index + 1));
        before.lemma_step_advances(events[index]);
        if self.request(events, index) is Pay {
            before.lemma_pays_current_batch(events[index]);
        }
    }

    /// Where two requests of a run hand the same address to the payment gateway, the later
    /// one belongs to a later pass: no address is paid for twice in one pass. So the gateway sees
    /// an address at most once in a run that needs no retry pass, and at most once more for
    /// each retry pass.
    pub proof fn lemma_no_double_payment(
        self,
        events: Seq<Event>,
        earlier: int,
        later: int,
        address: Address,
    )
        requires
            self.wf(),
            0 <= earlier < later < events.len(),
            self.request(events, earlier) matches ActionView::Pay(batch) && batch.contains(address),
            self.request(events, later) matches ActionView::Pay(batch) && batch.contains(address),
        ensures
            self.pass_of(events, earlier) < self.pass_of(events, later),
    {
        let before_first = self.run(events.take(earlier));
        let after_first = self.run(events.take(earlier + 1));
        let before_second = self.run(events.take(later));
        let after_second = self.run(events.take(later + 1));
        self.lemma_answer(events, earlier);
        self.lemma_answer(events, later);
        let between = events.subrange(earlier + 1, later);
        assert(events.take(later) =~= events.take(earlier + 1) + between);
        self.lemma_run_split(events.take(earlier + 1), between);
        after_first.lemma_pass_advances(between);
        assert(before_second == after_first.run(between));
        if after_first.retries == after_second.retries {
            lemma_batches_apart(after_first, after_second, address);
        }
    }

    /// In a run that begins no retry pass, no address is handed to the payment gateway twice.
    pub proof fn lemma_paid_once_without_retry(
        self,
        events: Seq<Event>,
        earlier: int,
        later: int,
        address: Address,
    )
        requires
            self.wf(),
            0 <= earlier < later < events.len(),
            self.run(events).retries == self.retries,
            self.request(events, earlier) matches ActionView::Pay(batch) && batch.contains(address),
        ensures
            !(self.request(events, later) matches ActionView::Pay(batch) && batch.contains(address)),
    {
        if self.request(events, later) matches ActionView::Pay(batch) && batch.contains(address) {
            self.lemma_no_double_payment(events, earlier, later, address);
            self.lemma_pass_advances(events.take(earlier + 1));
            let rest = events.subrange(later + 1, events.len() as int);
            assert(events =~= events.take(later + 1) + rest);
            self.lemma_run_split(events.take(later + 1), rest);
            self.lemma_run_wf(events.take(later + 1));
            self.run(events.take(later + 1)).lemma_pass_advances(rest);
        }
    }

    /// One answer never lowers the number of passes, and while it stays the same the queue
    /// stays the same and the batches only move forward in it.
    pub proof fn lemma_step_advances(self, event: Event)
        requires
            self.wf(),
        ensures
            self.next(event).state.retries >= self.retries,
            self.next(event).state.retries == self.retries ==> self.next(event).state.queue
                == self.queue && self.next(event).state.batch_end >= self.batch_end,
    {
        if let Ok(state) = self.take_in(event) {
            state.lemma_advance_effect();
        }
    }

    /// A request to pay names the addresses of the batch that the state after it holds as
    /// current, and that batch begins where the batch before it ended unless a new pass
    /// begins with it.
    pub proof fn lemma_pays_current_batch(self, event: Event)
        requires
            self.wf(),
            self.next(event).action is Pay,
        ensures
            self.next(event).action->Pay_0 == addresses_of(self.next(event).state.batch()),
            self.next(event).state.retries == self.retries ==> self.next(event).state.batch_start
                == self.batch_end,
    {
        if let Ok(state) = self.take_in(event) {
            state.lemma_advance_effect();
        }
    }
}

/// Two batches of one queue, of which the second begins where the first has ended or
/// later, have no address in common.
proof fn lemma_batches_apart(first: SchedulerView, second: SchedulerView, address: Address)
    requires
        first.wf(),
        second.wf(),
        second.queue == first.queue,
        second.batch_start >= first.batch_end,
        addresses_of(first.batch()).contains(address),
    ensures
        !addresses_of(second.batch()).contains(address),
{
    if addresses_of(second.batch()).contains(address) {
        lemma_batches_overlap(first, second, address);
    }
}

/// Two batches of one queue that name the same address overlap in the queue.
proof fn lemma_batches_overlap(first: SchedulerView, second: SchedulerView, address: Address)
    requires
        first.wf(),
        second.wf(),
        second.queue == first.queue,
        addresses_of(first.batch()).contains(address),
        addresses_of(second.batch()).contains(address),
    ensures
        second.batch_start < first.batch_end,
{
    let queue = first.queue;
    let p = choose|p: int|
        0 <= p < addresses_of(first.batch()).len() && addresses_of(first.batch())[p] == address;
    let q = choose|q: int|
        0 <= q < addresses_of(second.batch()).len() && addresses_of(second.batch())[q] == address;
    assert(first.batch()[p] == queue[first.batch_start + p]);
    assert(second.batch()[q] == queue[second.batch_start + q]);
    assert(queue[first.batch_start + p].address == address);
    assert(queue[second.batch_start + q].address == address);
    if first.batch_start + p < second.batch_start + q {
        assert(queue[first.batch_start + p].address != queue[second.batch_start + q].address);
    }
}

impl SchedulerView {
    /// A run that finds nothing pending ends at once: it pays for nothing and starts no
    /// worker, and its sums are those it began with.
    pub proof fn lemma_nothing_pending(
        manager: crate::chunks::ChunkManagerView,
        batch_size: nat,
        max_retries: nat,
        balance: u64,
    )
        requires
            manager.pending().len() == 0,
        ensures
            ({
                let begin = SchedulerView::initial(manager, batch_size, max_retries, balance);
                &&& begin.next(Event::Start).action == ActionView::Done(begin.summary())
                &&& begin.summary().chunks == 0
                &&& begin.summary().unfinished == 0
                &&& begin.summary().totals == crate::payment::Totals {
                    cost: 0,
                    royalties: 0,
                    balance,
                    existing_chunks: 0,
                }
                &&& begin.next(Event::Start).state.manager == manager
            }),
    {
        reveal(SchedulerView::advance);
    }
}

impl SchedulerView {
    /// A bound on the events that one pass over all known chunks can take.
    pub open spec fn pass_cost(self) -> nat {
        3 * self.manager.chunks.len() + 1
    }

    /// What the work ahead weighs when no request is open: the passes that may still begin,
    /// the chunks of this pass not yet paid for, the chunks paid for that have no worker
    /// yet, and the workers under way.
    pub open spec fn load(self) -> int {
        (self.max_retries - self.retries) * self.pass_cost() + 3 * (self.queue.len() - self.batch_end)
            + 2 * self.dispatching.len() + self.in_flight.len()
    }

    /// A bound on the number of events that a run can still take in. It is 0 exactly when
    /// the run is over.
    pub open spec fn fuel(self) -> int {
        match self.phase {
            Phase::Finished => 0,
            Phase::Idle => self.load() + 1,
            Phase::Paying => self.load() + 2 * (self.batch_end - self.batch_start) + 1,
            Phase::Dispatching => self.load() + 1,
            Phase::Waiting => self.load(),
        }
    }

    /// The request that is due leaves no more work ahead than there was.
    proof fn lemma_advance_load(self)
        requires
            self.inv(),
        ensures
            self.advance().state.fuel() <= self.load(),
            self.advance().state.manager.chunks == self.manager.chunks,
    {
        reveal(SchedulerView::advance);
        let cost = self.pass_cost() as int;
        let left = self.max_retries - self.retries;
        assert(left * cost >= 0) by (nonlinear_arith)
            requires
                left >= 0,
                cost >= 0,
        ;
        if self.dispatching.len() == 0 && self.batch_end >= self.queue.len() && self.in_flight.len() == 0
            && self.manager.pending().len() > 0 && self.retries < self.max_retries {
            crate::chunks::lemma_excluding_shrinks(self.manager.chunks, self.manager.completed);
            assert((left - 1) * cost == left * cost - cost) by (nonlinear_arith);
        }
    }

    /// Every event that a run takes in burns fuel: a run that is not over has less of it
    /// after the event than before.
    pub proof fn lemma_fuel_burns(self, event: Event)
        requires
            self.wf(),
            !(self.phase is Finished),
        ensures
            0 <= self.next(event).state.fuel() < self.fuel(),
            self.next(event).state.manager.chunks == self.manager.chunks,
    {
        let cost = self.pass_cost() as int;
        let left = self.max_retries - self.retries;
        assert(left * cost >= 0) by (nonlinear_arith)
            requires
                left >= 0,
                cost >= 0,
        ;
        self.lemma_next_wf(event);
        self.next(event).state.lemma_fuel_is_not_negative();
        self.lemma_take_in_inv(event);
        if let Ok(state) = self.take_in(event) {
            assert(state.load() <= self.fuel() - 1) by {
                match (self.phase, event) {
                    (Phase::Paying, Event::Paid(receipt)) => {
                        crate::chunks::lemma_excluding_shrinks(self.batch(), receipt.skipped@.to_set());
                    },
                    (Phase::Waiting, Event::WorkerFinished(WorkerOutcome::Stored(address))) => {
                        self.lemma_leave(address);
                    },
                    (Phase::Waiting, Event::WorkerFinished(WorkerOutcome::Failed(address))) => {
                        self.lemma_leave(address);
                    },
                    _ => {},
                }
            }
            state.lemma_advance_load();
        }
    }

    /// A well-formed state has no fuel below nothing, and has none only when the run is over.
    pub proof fn lemma_fuel_is_not_negative(self)
        requires
            self.wf(),
        ensures
            self.fuel() >= 0,
            self.fuel() == 0 ==> self.phase is Finished,
    {
        let cost = self.pass_cost() as int;
        let left = self.max_retries - self.retries;
        assert(left * cost >= 0) by (nonlinear_arith)
            requires
                left >= 0,
                cost >= 0,
        ;
    }

    /// A run that is over stays over.
    pub proof fn lemma_finished_stays(self, event: Event)
        requires
            self.phase is Finished,
        ensures
            self.next(event).state == self,
            self.next(event).action == ActionView::Abort(UploadError::UnexpectedEvent),
    {
    }

    /// In a run that is not over, each event has burnt fuel.
    proof fn lemma_run_burns(self, events: Seq<Event>)
        requires
            self.wf(),
        ensures
            self.run(events).phase is Finished || self.run(events).fuel() + events.len()
                <= self.fuel(),
        decreases events.len(),
    {
        if events.len() > 0 {
            let before = self.run(events.drop_last());
            self.lemma_run_burns(events.drop_last());
            self.lemma_run_wf(events.drop_last());
            if before.phase is Finished {
                before.lemma_finished_stays(events.last());
            } else {
                before.lemma_fuel_burns(events.last());
            }
        }
    }

    /// Every run comes to its end. Whatever the payment gateway and the
    /// workers answer, after as many events as the state has fuel the run is over. For a
    /// run that begins, that is one event, three for each pending chunk, and for each retry
    /// pass allowed one more than three for each known chunk.
    pub proof fn lemma_run_ends(self, events: Seq<Event>)
        requires
            self.wf(),
            events.len() >= self.fuel(),
        ensures
            self.run(events).phase is Finished,
    {
        self.lemma_run_burns(events);
        self.lemma_run_wf(events);
        self.run(events).lemma_fuel_is_not_negative();
    }
}

impl SchedulerView {
    /// Payment comes before the upload: a worker is only started for a chunk of the batch
    /// that was paid for last, and never in answer to a payment that failed.
    pub proof fn lemma_worker_after_payment(self, event: Event)
        requires
            self.wf(),
            self.next(event).action is Dispatch,
        ensures
            self.next(event).state.batch().contains(self.next(event).action->Dispatch_0),
            !(event is PaymentFailed),
            self.phase is Paying ==> event is Paid,
            !(self.phase is Paying) ==> self.next(event).state.batch() == self.batch()
                && self.dispatching.contains(self.next(event).action->Dispatch_0),
    {
        if let Ok(state) = self.take_in(event) {
            state.lemma_advance_effect();
        }
        if self.phase is Paying {
            if let Event::Paid(receipt) = event {
                crate::chunks::lemma_excluding_members(self.batch(), receipt.skipped@.to_set());
            }
        } else {
            assert(self.dispatching.len() > 0);
            assert(self.dispatching[0] == self.dispatching.first());
        }
    }
}

impl SchedulerView {
    /// A chunk is completed for a reason: in a run, a chunk becomes completed only when the
    /// payment gateway reports it as already stored, or when the worker that had it in the
    /// window reports it stored. A payment that fails and a worker that fails complete nothing.
    pub proof fn lemma_completed_for_a_reason(self, event: Event, address: Address)
        requires
            !self.manager.completed.contains(address),
            self.next(event).state.manager.completed.contains(address),
        ensures
            match event {
                Event::Paid(receipt) => self.phase is Paying && receipt.skipped@.contains(address),
                Event::WorkerFinished(outcome) => self.phase is Waiting && outcome
                    == WorkerOutcome::Stored(address) && self.in_flight.contains(address),
                _ => false,
            },
            self.manager.knows(address),
    {
        if let Ok(state) = self.take_in(event) {
            state.lemma_advance_effect();
        }
    }
}

impl SchedulerView {
    /// A run ends well only when its work is done: every batch of the last pass was handed
    /// to the payment gateway, no worker is under way, and either nothing is pending or no
    /// retry pass is left. What is still pending is told in the figures of the run.
    pub proof fn lemma_done_in_time(self, event: Event)
        requires
            self.wf(),
            self.next(event).action is Done,
        ensures
            ({
                let end = self.next(event).state;
                &&& end.phase is Finished
                &&& end.in_flight.len() == 0
                &&& end.dispatching.len() == 0
                &&& end.batch_end == end.queue.len()
                &&& end.manager.pending().len() == 0 || end.retries == end.max_retries
                &&& self.next(event).action == ActionView::Done(end.summary())
            }),
    {
        reveal(SchedulerView::advance);
        self.lemma_take_in_inv(event);
    }
}

impl SchedulerView {
    /// The sums follow the payments: a payment that goes through adds its cost and its
    /// royalties, sets the balance to what the wallet holds afterwards, and counts the
    /// chunks that the network already held; no other event touches the sums.
    pub proof fn lemma_sums_follow_payments(self, event: Event)
        requires
            self.wf(),
        ensures
            self.next(event).state.totals == if self.is_payment(event) {
                crate::payment::Totals {
                    cost: (self.totals.cost + event->Paid_0.storage_cost) as u64,
                    royalties: (self.totals.royalties + event->Paid_0.royalties) as u64,
                    balance: event->Paid_0.new_balance,
                    existing_chunks: crate::scheduler::saturating_count(
                        self.totals.existing_chunks + event->Paid_0.skipped@.len(),
                    ),
                }
            } else {
                self.totals
            },
    {
        if let Ok(state) = self.take_in(event) {
            state.lemma_advance_effect();
        }
    }
}

} // verus!
