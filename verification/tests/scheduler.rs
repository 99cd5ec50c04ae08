use sn_cli::address::Address;
use sn_cli::chunks::{ChunkManager, ChunkRef};
use sn_cli::error::UploadError;
use sn_cli::manifest::{read_manifest, upload_record};
use sn_cli::payment::{PaymentError, PaymentReceipt, Totals};
use sn_cli::scheduler::{Action, ChunkState, Event, Phase, Scheduler, UploadSummary, WorkerOutcome};
use sn_cli::upload::{prepare, reconcile, Preparation, Verdict};
use std::collections::VecDeque;
use std::path::PathBuf;

fn address(n: u8) -> Address {
    let mut bytes = [0u8; 32];
    bytes[0] = n;
    bytes[31] = n.wrapping_mul(7);
    Address(bytes)
}

fn chunk(n: u8) -> ChunkRef {
    ChunkRef { address: address(n), path: PathBuf::from(format!("/store/chunks/{n}")) }
}

fn manager_with(chunks: u8) -> ChunkManager {
    let mut manager = ChunkManager::new();
    let refs: Vec<ChunkRef> = (0..chunks).map(chunk).collect();
    manager.insert_file("hello.txt".to_string(), address(0), &refs);
    manager
}

fn receipt(cost: u64, skipped: Vec<Address>) -> PaymentReceipt {
    PaymentReceipt { storage_cost: cost, royalties: 1, new_balance: 1000, skipped }
}

struct Run {
    events: usize,
    pays: Vec<Vec<Address>>,
    pass_of_pay: Vec<usize>,
    dispatched: Vec<ChunkRef>,
    widest: usize,
    end: Action,
}

fn drive(
    scheduler: &mut Scheduler,
    mut pay: impl FnMut(usize, &[Address]) -> Result<PaymentReceipt, PaymentError>,
    mut work: impl FnMut(&ChunkRef) -> WorkerOutcome,
) -> Run {
    let mut window: VecDeque<ChunkRef> = VecDeque::new();
    let mut run = Run {
        events: 1,
        pays: Vec::new(),
        pass_of_pay: Vec::new(),
        dispatched: Vec::new(),
        widest: 0,
        end: Action::AwaitWorker,
    };
    let mut action = scheduler.step(Event::Start);
    loop {
        assert!(scheduler.in_flight() <= scheduler.batch_size());
        assert!(scheduler.retries() <= scheduler.max_retries());
        if !matches!(action, Action::Abort(_)) {
            let starting = usize::from(matches!(action, Action::Dispatch(_)));
            assert_eq!(scheduler.in_flight(), window.len() + starting);
        }
        let event = match action {
            Action::Pay(addresses) => {
                assert!(!addresses.is_empty());
                assert!(addresses.len() <= scheduler.batch_size());
                let answer = pay(run.pays.len(), &addresses);
                run.pays.push(addresses);
                run.pass_of_pay.push(scheduler.retries());
                match answer {
                    Ok(receipt) => Event::Paid(receipt),
                    Err(error) => Event::PaymentFailed(error),
                }
            }
            Action::Dispatch(chunk) => {
                run.dispatched.push(chunk.clone());
                window.push_back(chunk);
                run.widest = run.widest.max(window.len());
                Event::Dispatched
            }
            Action::AwaitWorker => {
                let chunk = window.pop_front().expect("a worker is under way");
                Event::WorkerFinished(work(&chunk))
            }
            end => {
                assert_eq!(scheduler.phase(), Phase::Finished);
                run.end = end;
                return run;
            }
        };
        action = scheduler.step(event);
        run.events += 1;
    }
}

fn stored(chunk: &ChunkRef) -> WorkerOutcome {
    WorkerOutcome::Stored(chunk.address)
}

fn failed(chunk: &ChunkRef) -> WorkerOutcome {
    WorkerOutcome::Failed(chunk.address)
}

#[test]
fn single_file_is_uploaded_in_batches() {
    let mut scheduler = Scheduler::new(manager_with(10), 4, 3, 500);
    let run = drive(&mut scheduler, |_, _| Ok(receipt(5, Vec::new())), stored);
    assert_eq!(
        run.pays,
        vec![
            (0..4).map(address).collect::<Vec<_>>(),
            (4..8).map(address).collect::<Vec<_>>(),
            (8..10).map(address).collect::<Vec<_>>(),
        ]
    );
    assert_eq!(run.dispatched, (0..10).map(chunk).collect::<Vec<_>>());
    assert_eq!(
        run.end,
        Action::Done(UploadSummary {
            chunks: 10,
            unfinished: 0,
            retries: 0,
            totals: Totals { cost: 15, royalties: 3, balance: 1000, existing_chunks: 0 },
        })
    );
    let manager = scheduler.into_manager();
    assert!(manager.is_chunks_empty());
    let files = manager.verified_files();
    assert_eq!(files, vec![("hello.txt".to_string(), address(0))]);
    let record = upload_record(&files);
    assert_eq!(record.len(), 1);
    assert_eq!(
        String::from_utf8(record[0].clone()).unwrap(),
        format!("00{}: hello.txt", "00".repeat(31))
    );
    assert_eq!(read_manifest(&record).entries.len(), 1);
}

#[test]
fn window_never_exceeds_the_batch_size() {
    for batch_size in 1..=9usize {
        for chunks in [0u8, 1, 2, 7, 50] {
            let mut scheduler = Scheduler::new(manager_with(chunks), batch_size, 2, 500);
            let mut turn = 0u32;
            let run = drive(
                &mut scheduler,
                |_, _| Ok(receipt(1, Vec::new())),
                |chunk| {
                    turn += 1;
                    if turn % 3 == 0 {
                        failed(chunk)
                    } else {
                        stored(chunk)
                    }
                },
            );
            assert!(run.widest <= batch_size);
            assert!(matches!(run.end, Action::Done(_)));
            if chunks as usize >= batch_size {
                assert_eq!(run.widest, batch_size);
            }
        }
    }
}

#[test]
fn nothing_pending_ends_at_once() {
    let mut scheduler = Scheduler::new(ChunkManager::new(), 4, 3, 77);
    let run = drive(&mut scheduler, |_, _| Ok(receipt(1, Vec::new())), stored);
    assert!(run.pays.is_empty());
    assert!(run.dispatched.is_empty());
    assert_eq!(
        run.end,
        Action::Done(UploadSummary {
            chunks: 0,
            unfinished: 0,
            retries: 0,
            totals: Totals { cost: 0, royalties: 0, balance: 77, existing_chunks: 0 },
        })
    );
}

#[test]
fn failed_chunk_is_retried_alone() {
    let mut scheduler = Scheduler::new(manager_with(6), 4, 3, 500);
    let mut failed_once = false;
    let run = drive(
        &mut scheduler,
        |_, _| Ok(receipt(2, Vec::new())),
        |chunk| {
            if chunk.address == address(2) && !failed_once {
                failed_once = true;
                failed(chunk)
            } else {
                stored(chunk)
            }
        },
    );
    assert_eq!(run.pays.len(), 3);
    assert_eq!(run.pays[2], vec![address(2)]);
    assert_eq!(run.pass_of_pay, vec![0, 0, 1]);
    assert_eq!(run.dispatched.len(), 7);
    match run.end {
        Action::Done(summary) => {
            assert_eq!(summary.retries, 1);
            assert_eq!(summary.unfinished, 0);
            assert_eq!(summary.chunks, 6);
        }
        other => panic!("{other:?}"),
    }
}

#[test]
fn resume_after_partial_failure() {
    let mut first = Scheduler::new(manager_with(5), 4, 0, 500);
    let run = drive(
        &mut first,
        |_, _| Ok(receipt(2, Vec::new())),
        |chunk| if chunk.address == address(3) { failed(chunk) } else { stored(chunk) },
    );
    match run.end {
        Action::Done(summary) => assert_eq!(summary.unfinished, 1),
        other => panic!("{other:?}"),
    }
    let manager = first.into_manager();
    assert!(manager.verified_files().is_empty());
    assert_eq!(prepare(&manager), Preparation::Upload);

    let mut second = Scheduler::new(manager, 4, 0, 500);
    let run = drive(&mut second, |_, _| Ok(receipt(2, Vec::new())), stored);
    assert_eq!(run.pays, vec![vec![address(3)]]);
    assert_eq!(run.dispatched, vec![chunk(3)]);
    let manager = second.into_manager();
    let record = upload_record(&manager.verified_files());
    assert_eq!(record.len(), 1);
}

#[test]
fn verifier_failure_on_resume() {
    let mut manager = manager_with(5);
    manager.mark_completed(&(0..5).map(address).collect());
    let known = match prepare(&manager) {
        Preparation::Verify(chunks) => chunks,
        other => panic!("{other:?}"),
    };
    assert_eq!(known, (0..5).map(chunk).collect::<Vec<_>>());
    assert_eq!(reconcile(&mut manager, &vec![chunk(4)]), Verdict::Reupload(1));
    assert_eq!(manager.get_chunks(), vec![chunk(4)]);

    let mut scheduler = Scheduler::new(manager, 4, 3, 500);
    let run = drive(&mut scheduler, |_, _| Ok(receipt(2, Vec::new())), stored);
    assert_eq!(run.pays, vec![vec![address(4)]]);
    assert_eq!(run.dispatched, vec![chunk(4)]);
    assert!(scheduler.manager().is_chunks_empty());
}

#[test]
fn verifier_without_failures_leaves_nothing_to_do() {
    let mut manager = manager_with(5);
    manager.mark_completed(&(0..5).map(address).collect());
    assert!(matches!(prepare(&manager), Preparation::Verify(_)));
    assert_eq!(reconcile(&mut manager, &Vec::new()), Verdict::AllStored);
    assert!(manager.is_chunks_empty());
    assert_eq!(manager.verified_files(), vec![("hello.txt".to_string(), address(0))]);
}

#[test]
fn three_unverified_transfers_in_a_row_end_the_run() {
    let mut scheduler = Scheduler::new(manager_with(20), 4, 3, 500);
    let run = drive(&mut scheduler, |_, _| Err(PaymentError::CouldNotVerifyTransfer), stored);
    assert_eq!(run.pays.len(), 3);
    assert!(run.dispatched.is_empty());
    assert_eq!(run.end, Action::Abort(UploadError::TooManyPaymentFails { fails: 3 }));
    assert_eq!(
        UploadError::TooManyPaymentFails { fails: 3 }.message(),
        "Too many sequential payment failures (3). Aborting upload process."
    );
    assert_eq!(scheduler.manager().get_chunks().len(), 20);
}

#[test]
fn payment_that_goes_through_resets_the_count() {
    // fail, fail, pay, fail, fail, pay, then three failures
    let soft = [true, true, false, true, true, false, true, true, true, false, false];
    let mut scheduler = Scheduler::new(manager_with(40), 4, 3, 500);
    let run = drive(
        &mut scheduler,
        |call, _| {
            if soft[call] {
                Err(PaymentError::CouldNotVerifyTransfer)
            } else {
                Ok(receipt(1, Vec::new()))
            }
        },
        stored,
    );
    assert_eq!(run.pays.len(), 9);
    assert_eq!(run.dispatched.len(), 8);
    assert_eq!(run.end, Action::Abort(UploadError::TooManyPaymentFails { fails: 3 }));
}

#[test]
fn batch_with_unverified_transfer_is_paid_for_in_the_next_pass() {
    let mut scheduler = Scheduler::new(manager_with(8), 4, 3, 500);
    let run = drive(
        &mut scheduler,
        |call, _| {
            if call == 0 {
                Err(PaymentError::CouldNotVerifyTransfer)
            } else {
                Ok(receipt(1, Vec::new()))
            }
        },
        stored,
    );
    assert_eq!(run.pays.len(), 3);
    assert_eq!(run.pays[0], run.pays[2]);
    assert_eq!(run.pass_of_pay, vec![0, 0, 1]);
    assert!(matches!(run.end, Action::Done(summary) if summary.unfinished == 0));
}

#[test]
fn no_address_is_paid_for_twice_in_a_pass() {
    let mut scheduler = Scheduler::new(manager_with(23), 5, 4, 500);
    let mut turn = 0u32;
    let run = drive(
        &mut scheduler,
        |_, _| Ok(receipt(1, Vec::new())),
        |chunk| {
            turn += 1;
            if turn % 2 == 0 {
                failed(chunk)
            } else {
                stored(chunk)
            }
        },
    );
    for pass in 0..=4usize {
        let mut seen: Vec<Address> = Vec::new();
        for (batch, of) in run.pays.iter().zip(&run.pass_of_pay) {
            if *of == pass {
                for address in batch {
                    assert!(!seen.contains(address));
                    seen.push(*address);
                }
            }
        }
    }
}

#[test]
fn run_ends_within_its_bound() {
    for (chunks, batch_size, max_retries) in [(0u8, 1usize, 0usize), (1, 1, 0), (9, 4, 3), (30, 7, 2), (5, 9, 5)] {
        let bound = 1 + 3 * chunks as usize + max_retries * (3 * chunks as usize + 1);
        let mut scheduler = Scheduler::new(manager_with(chunks), batch_size, max_retries, 500);
        let run = drive(&mut scheduler, |_, _| Ok(receipt(1, Vec::new())), failed);
        assert!(run.events <= bound);
        let mut scheduler = Scheduler::new(manager_with(chunks), batch_size, max_retries, 500);
        let run = drive(&mut scheduler, |_, _| Ok(receipt(1, Vec::new())), stored);
        assert!(run.events <= bound);
        assert_eq!(run.events, 1 + 2 * chunks as usize + chunks.div_ceil(batch_size as u8) as usize);
    }
}

#[test]
fn retries_stop_at_the_limit() {
    for max_retries in 0..4usize {
        let mut scheduler = Scheduler::new(manager_with(9), 4, max_retries, 500);
        let run = drive(&mut scheduler, |_, _| Ok(receipt(1, Vec::new())), failed);
        assert_eq!(run.pays.len(), 3 * (max_retries + 1));
        match run.end {
            Action::Done(summary) => {
                assert_eq!(summary.retries, max_retries);
                assert_eq!(summary.unfinished, 9);
            }
            other => panic!("{other:?}"),
        }
    }
}

#[test]
fn skipped_chunks_get_no_worker() {
    let mut scheduler = Scheduler::new(manager_with(6), 3, 3, 500);
    let run = drive(
        &mut scheduler,
        |call, _| {
            if call == 0 {
                Ok(receipt(4, vec![address(1), address(0)]))
            } else {
                Ok(receipt(4, vec![address(3), address(4), address(5)]))
            }
        },
        stored,
    );
    assert_eq!(run.dispatched, vec![chunk(2)]);
    assert_eq!(
        run.end,
        Action::Done(UploadSummary {
            chunks: 6,
            unfinished: 0,
            retries: 0,
            totals: Totals { cost: 8, royalties: 2, balance: 1000, existing_chunks: 5 },
        })
    );
}

#[test]
fn completed_chunk_stays_completed() {
    let mut scheduler = Scheduler::new(manager_with(4), 2, 3, 500);
    let mut action = scheduler.step(Event::Start);
    let mut completed: Vec<Address> = Vec::new();
    let mut window: VecDeque<ChunkRef> = VecDeque::new();
    let mut turn = 0;
    loop {
        let pending: Vec<Address> = scheduler.manager().get_chunks().iter().map(|c| c.address).collect();
        for address in &completed {
            assert!(!pending.contains(address));
        }
        let event = match action {
            Action::Pay(_) => Event::Paid(receipt(1, Vec::new())),
            Action::Dispatch(chunk) => {
                window.push_back(chunk);
                Event::Dispatched
            }
            Action::AwaitWorker => {
                let chunk = window.pop_front().unwrap();
                turn += 1;
                if turn % 2 == 1 {
                    Event::WorkerFinished(WorkerOutcome::Failed(chunk.address))
                } else {
                    completed.push(chunk.address);
                    Event::WorkerFinished(WorkerOutcome::Stored(chunk.address))
                }
            }
            _ => break,
        };
        action = scheduler.step(event);
    }
    assert_eq!(completed.len(), 4);
}

#[test]
fn empty_balance_for_a_batch_ends_the_run() {
    let mut scheduler = Scheduler::new(manager_with(6), 3, 3, 500);
    let run = drive(
        &mut scheduler,
        |call, _| {
            if call == 0 {
                Ok(receipt(4, Vec::new()))
            } else {
                Err(PaymentError::NotEnoughBalance { available: 12, required: 340 })
            }
        },
        stored,
    );
    assert_eq!(run.pays.len(), 2);
    assert_eq!(run.end, Action::Abort(UploadError::NotEnoughBalance { available: 12, required: 340 }));
    assert_eq!(scheduler.totals(), Totals { cost: 4, royalties: 1, balance: 1000, existing_chunks: 0 });
}

#[test]
fn other_payment_failure_ends_the_run() {
    let mut scheduler = Scheduler::new(manager_with(6), 3, 3, 500);
    let run = drive(&mut scheduler, |_, _| Err(PaymentError::Other("no route".to_string())), stored);
    assert_eq!(run.pays.len(), 1);
    assert_eq!(run.end, Action::Abort(UploadError::Payment("no route".to_string())));
}

#[test]
fn sums_that_overflow_end_the_run() {
    let mut scheduler = Scheduler::new(manager_with(6), 3, 3, 500);
    let run = drive(
        &mut scheduler,
        |_, _| Ok(PaymentReceipt { storage_cost: u64::MAX, royalties: 0, new_balance: 0, skipped: Vec::new() }),
        stored,
    );
    assert_eq!(run.end, Action::Abort(UploadError::CostOverflow));

    let mut scheduler = Scheduler::new(manager_with(6), 3, 3, 500);
    let run = drive(
        &mut scheduler,
        |_, _| Ok(PaymentReceipt { storage_cost: 0, royalties: u64::MAX / 2 + 1, new_balance: 0, skipped: Vec::new() }),
        stored,
    );
    assert_eq!(run.end, Action::Abort(UploadError::RoyaltiesOverflow));
}

#[test]
fn crashed_worker_ends_the_run() {
    let mut scheduler = Scheduler::new(manager_with(6), 2, 3, 500);
    let run = drive(&mut scheduler, |_, _| Ok(receipt(1, Vec::new())), |_| WorkerOutcome::Crashed);
    assert_eq!(run.end, Action::Abort(UploadError::WorkerCrashed));
}

#[test]
fn event_that_was_not_asked_for_ends_the_run() {
    let mut scheduler = Scheduler::new(manager_with(6), 2, 3, 500);
    assert_eq!(scheduler.step(Event::Dispatched), Action::Abort(UploadError::UnexpectedEvent));
    assert_eq!(scheduler.step(Event::Start), Action::Abort(UploadError::UnexpectedEvent));

    let mut scheduler = Scheduler::new(manager_with(6), 2, 3, 500);
    assert!(matches!(scheduler.step(Event::Start), Action::Pay(_)));
    assert_eq!(
        scheduler.step(Event::WorkerFinished(WorkerOutcome::Failed(address(0)))),
        Action::Abort(UploadError::UnexpectedEvent)
    );
}

#[test]
fn worker_that_was_never_started_cannot_end() {
    let mut scheduler = Scheduler::new(manager_with(3), 1, 3, 500);
    assert_eq!(scheduler.step(Event::Start), Action::Pay(vec![address(0)]));
    assert_eq!(scheduler.step(Event::Paid(receipt(1, Vec::new()))), Action::Dispatch(chunk(0)));
    assert_eq!(scheduler.step(Event::Dispatched), Action::AwaitWorker);
    assert_eq!(
        scheduler.step(Event::WorkerFinished(WorkerOutcome::Stored(address(1)))),
        Action::Abort(UploadError::UnexpectedEvent)
    );
    assert_eq!(scheduler.manager().get_chunks().len(), 3);
}

#[test]
fn chunk_goes_from_pending_to_in_flight_to_completed() {
    let mut scheduler = Scheduler::new(manager_with(2), 1, 3, 500);
    assert_eq!(scheduler.chunk_state(&address(0)), Some(ChunkState::Pending));
    assert_eq!(scheduler.chunk_state(&address(9)), None);
    assert_eq!(scheduler.step(Event::Start), Action::Pay(vec![address(0)]));
    assert_eq!(scheduler.step(Event::Paid(receipt(1, Vec::new()))), Action::Dispatch(chunk(0)));
    assert_eq!(scheduler.chunk_state(&address(0)), Some(ChunkState::InFlight));
    assert_eq!(scheduler.step(Event::Dispatched), Action::AwaitWorker);
    assert_eq!(
        scheduler.step(Event::WorkerFinished(WorkerOutcome::Failed(address(0)))),
        Action::Pay(vec![address(1)])
    );
    assert_eq!(scheduler.chunk_state(&address(0)), Some(ChunkState::Pending));
    assert_eq!(scheduler.step(Event::Paid(receipt(1, vec![address(1)]))), Action::Pay(vec![address(0)]));
    assert_eq!(scheduler.chunk_state(&address(1)), Some(ChunkState::Completed));
    assert_eq!(scheduler.retries(), 1);
    assert_eq!(scheduler.step(Event::Paid(receipt(1, Vec::new()))), Action::Dispatch(chunk(0)));
    assert_eq!(scheduler.step(Event::Dispatched), Action::AwaitWorker);
    assert!(matches!(
        scheduler.step(Event::WorkerFinished(WorkerOutcome::Stored(address(0)))),
        Action::Done(_)
    ));
    assert_eq!(scheduler.chunk_state(&address(0)), Some(ChunkState::Completed));
}

#[test]
fn count_of_existing_chunks_saturates() {
    let mut scheduler = Scheduler::new(manager_with(2), 1, 0, 500);
    assert!(matches!(scheduler.step(Event::Start), Action::Pay(_)));
    let many = vec![address(9); 5];
    assert!(matches!(scheduler.step(Event::Paid(receipt(1, many))), Action::Dispatch(_)));
    assert_eq!(scheduler.totals().existing_chunks, 5);
    assert_eq!(scheduler.payment_fails(), 0);
}
