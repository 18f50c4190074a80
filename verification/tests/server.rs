use social_schedule::batch::{Batch, BatchData, BatchId, ScheduleArg, Stats, Elapsed};
use social_schedule::client::{ApiError, Client, ClientId, RateStats};
use social_schedule::solve::ScheduleState;

#[test]
fn api_error_names() {
    assert_eq!(ApiError::Completed.message(), "Completed");
    assert_eq!(ApiError::StreamFinished.message(), "StreamFinished");
    assert_eq!(ApiError::Timeout.message(), "Timeout");
}

#[test]
fn client_claims_and_returns_batches() {
    let mut c = Client::new(7, 100);
    assert_eq!(c.get_id(), ClientId::new(7));
    assert_eq!(c.get_last_updated(), 100);
    c.claim_block(Batch::new(BatchId::new(3), BatchData::new(vec![1, 2])), 250);
    assert_eq!(c.claimed_len(), 1);
    assert_eq!(c.get_last_updated(), 250);
    assert_eq!(c.get_claimed().get(&3).unwrap().get_ref(), &[1, 2]);
    assert!(c.take_claimed(4).is_none());
    assert_eq!(c.take_claimed(3).unwrap().get_ref(), &[1, 2]);
    assert_eq!(c.claimed_len(), 0);
}

#[test]
fn rate_windows_roll_after_a_second() {
    let mut r = RateStats::new(0);
    r.add(500, 5);
    assert_eq!(r.oldest(), (0, 5));
    r.add(1200, 2);
    // the newest window opened at 0, so a new one opens at 1200, the oldest
    // falls out, and every window then counts the 2
    assert_eq!(r.oldest(), (0, 7));
    assert!(r.can_add(10));
    assert!(!r.can_add(u64::MAX));
}

#[test]
fn client_counts_steps_and_bytes() {
    let mut c = Client::new(1, 0);
    let stats = Stats { steps: 40, elapsed: Elapsed::new(1, 0) };
    c.add_stats(&stats, 10);
    c.add_sent_bytes(8, 10);
    c.add_recieved_bytes(16, 10);
    assert_eq!(c.step_stats().oldest(), (0, 40));
    assert_eq!(c.sent_stats().oldest(), (0, 8));
    assert_eq!(c.recieved_stats().oldest(), (0, 16));
}

fn small_arg() -> ScheduleArg {
    ScheduleArg::new(&[2, 2], 2)
}

#[test]
fn solve_state_hands_out_then_queues() {
    let mut state = ScheduleState::new(small_arg());
    assert_eq!(state.get_unclaimed_len(), 1);
    let mut a = Client::new(0, 0);
    let mut b = Client::new(1, 0);
    let first = state.get_block(&mut a, 5).unwrap();
    assert_eq!(first.get_id().get(), 0);
    assert_eq!(first.get_data().get_ref().len(), state.get_block_size());
    assert_eq!(a.claimed_len(), 1);
    assert_eq!(state.get_unclaimed_len(), 0);
    assert!(state.get_block(&mut b, 6).is_none());
    assert_eq!(state.get_queue_len(), 1);
    let mut clients = state.get_clients();
    clients.sort();
    assert_eq!(clients, vec![0, 1]);
    assert_eq!(state.take_waiting().unwrap(), ClientId::new(1));
    assert!(state.take_waiting().is_none());
}

#[test]
fn solve_state_numbers_children_and_frees_clients() {
    let mut state = ScheduleState::new(small_arg());
    let size = state.get_block_size();
    let mut a = Client::new(0, 0);
    let first = state.get_block(&mut a, 1).unwrap();
    let children = vec![vec![0u64; size], vec![1u64; size]];
    let made = state.add_batch_result(&mut a, first.get_id().get(), children);
    assert_eq!(made.len(), 2);
    assert_eq!(made[0].get_id().get(), 1);
    assert_eq!(made[1].get_id().get(), 2);
    assert_eq!(a.claimed_len(), 0);
    for batch in made {
        state.store_block(batch);
    }
    assert_eq!(state.get_unclaimed_len(), 2);
    // the batch with the most placements is handed out first
    let next = state.get_block(&mut a, 2).unwrap();
    assert_eq!(next.get_id().get(), 2);
    let back = state.free_all_from_client(&mut a);
    assert_eq!(back.len(), 1);
    assert_eq!(back[0].get_id().get(), 2);
    assert_eq!(state.get_clients().len(), 0);
    // a client that no longer takes part changes nothing
    let mut stranger = Client::new(9, 0);
    assert!(state.free_all_from_client(&mut stranger).is_empty());
}

#[test]
fn hand_out_goes_to_the_longest_waiting_client_or_is_kept() {
    let mut state = ScheduleState::new(small_arg());
    let size = state.get_block_size();
    let mut a = Client::new(0, 0);
    let mut b = Client::new(1, 0);
    let mut c = Client::new(2, 0);
    let first = state.get_block(&mut a, 1).unwrap();
    assert!(state.get_block(&mut b, 2).is_none());
    assert!(state.get_block(&mut c, 3).is_none());
    let batch = Batch::new(BatchId::new(5), BatchData::new(vec![0; size]));
    let (to, given) = state.hand_out(batch).unwrap();
    assert_eq!(to, ClientId::new(1));
    assert_eq!(given.get_id().get(), 5);
    assert_eq!(state.get_queue_len(), 1);
    assert_eq!(state.get_unclaimed_len(), 0);
    let (to, _) = state.hand_out(first.duplicate()).unwrap();
    assert_eq!(to, ClientId::new(2));
    assert!(state.hand_out(Batch::new(BatchId::new(6), BatchData::new(vec![0; size]))).is_none());
    assert_eq!(state.get_queue_len(), 0);
    assert_eq!(state.get_unclaimed_len(), 1);
}
