use social_schedule::scheduler::ToExplore;

#[test]
fn test_to_explore_words() {
    let data = vec![0_u8; 16];
    let mut to_explore = ToExplore::new(data, 8);
    for round in 0..8 {
        for table in 0..8 {
            to_explore.set(round, table, true);
        }
    }
    let mut iter = to_explore.iter_mut();
    let mut result = Vec::new();
    for _ in 0..3 {
        if let Some(x) = iter.next() {
            result.push(x);
        }
    }
    assert_eq!(result, vec![(0, 0), (0, 1), (0, 2)]);
    for _ in 0..4 {
        iter.next();
    }
    let mut result = Vec::new();
    for _ in 0..4 {
        if let Some(x) = iter.next() {
            result.push(x);
        }
    }
    assert_eq!(result, vec![(0, 7), (1, 0), (1, 1), (1, 2)]);
}

use social_schedule::compact::State;
use social_schedule::scheduler::Scheduler;
use social_schedule::search::run_search;

#[test]
fn compact_state_starts_with_first_round_seated() {
    let s = State::new();
    assert_eq!(s.get_players_played_count(), 24);
}

#[test]
fn compact_step_branches_on_an_empty_table() {
    let mut s = State::new();
    let taken = s.step().unwrap().unwrap();
    // the branch places one more player; this state rules that player out
    assert_eq!(taken.get_players_played_count(), 25);
    assert_eq!(s.get_players_played_count(), 24);
}

#[test]
fn format_small_schedule() {
    let tables = [2usize, 2];
    let scheduler = Scheduler::new(&tables, 2);
    assert!(scheduler.has_explore_room());
    let mut buf = vec![0u64; scheduler.get_block_size()];
    assert!(scheduler.initialise_buffer(&mut buf));
    let schedule = scheduler.import_buffer(buf).unwrap();
    let mut out = String::new();
    scheduler.format_schedule(&schedule, &mut out);
    let expected = String::new()
        + "     |  1  |  2  "
        + "\n-----+-----+-----"
        + "\n     |  0  |  2  "
        + "\n  1  |  1  |  3  "
        + "\n     |     |     "
        + "\n-----+-----+-----"
        + "\n     |     |     "
        + "\n  2  |     |     "
        + "\n     |     |     ";
    assert_eq!(out, expected);
}

#[test]
fn short_buffer_is_not_imported() {
    let tables = [2usize, 2];
    let scheduler = Scheduler::new(&tables, 2);
    let n = scheduler.get_block_size();
    assert!(scheduler.import_buffer(vec![0u64; n - 1]).is_none());
    assert!(scheduler.import_buffer(vec![0u64; n]).is_some());
}

#[test]
fn search_finds_no_schedule_for_two_pairs() {
    // in the second round each pair would have to move to the other table,
    // where its two players would meet again
    let tables = [2usize, 2];
    let scheduler = Scheduler::new(&tables, 2);
    let mut buf = vec![0u64; scheduler.get_block_size()];
    assert!(scheduler.initialise_buffer(&mut buf));
    let run = run_search(&scheduler, &buf, 1000);
    assert!(run.exhausted);
    assert!(run.remaining.is_empty());
    assert!(run.solutions.is_empty());
}

#[test]
fn search_finds_schedules_for_single_seats() {
    // three tables of one seat over three rounds: every Latin square works
    let tables = [1usize, 1, 1];
    let scheduler = Scheduler::new(&tables, 3);
    let mut buf = vec![0u64; scheduler.get_block_size()];
    assert!(scheduler.initialise_buffer(&mut buf));
    let run = run_search(&scheduler, &buf, 1000);
    assert!(run.exhausted);
    assert!(!run.solutions.is_empty());
    for solution in run.solutions.iter() {
        assert_eq!(solution.len(), scheduler.get_block_size());
    }
}

#[test]
fn calc_divisor_is_least_covering_power() {
    assert_eq!(ToExplore::<u64>::calc_divisor(1), 0);
    assert_eq!(ToExplore::<u64>::calc_divisor(2), 1);
    assert_eq!(ToExplore::<u64>::calc_divisor(5), 3);
    assert_eq!(ToExplore::<u64>::calc_divisor(8), 3);
}

#[test]
fn buffers_are_checked_before_search() {
    let tables = [2usize, 2];
    let scheduler = Scheduler::new(&tables, 2);
    assert!(scheduler.can_search());
    let mut buf = vec![0u64; scheduler.get_block_size()];
    assert!(scheduler.initialise_buffer(&mut buf));
    assert!(scheduler.is_valid_buffer(&buf));
    assert!(!scheduler.is_valid_buffer(&buf[..buf.len() - 1]));
    // a player number past the four players in a table of the schedule
    let last = buf.len() - 1;
    buf[last] = 1 << 10;
    assert!(!scheduler.is_valid_buffer(&buf));
}

#[test]
fn solver_sizes_must_fit() {
    assert!(social_schedule::scheduler::fits(&[4, 4, 4], 3));
    assert!(!social_schedule::scheduler::fits(&[usize::MAX, 1], 2));
}

#[test]
fn hidden_singles_seat_players_with_one_place_left() {
    let tables = [2usize, 2];
    let scheduler = Scheduler::new(&tables, 2);
    let mut buf = vec![0u64; scheduler.get_block_size()];
    assert!(scheduler.initialise_buffer(&mut buf));
    let mut schedule = scheduler.import_buffer(buf).unwrap();
    scheduler.find_hidden_singles(&mut schedule);
    let mut out = String::new();
    scheduler.format_schedule(&schedule, &mut out);
    // in the second round player 0 may only join table 2 and player 2 only
    // table 1; once they sit, players 1 and 3 have no table left
    let expected = String::new()
        + "     |  1  |  2  "
        + "\n-----+-----+-----"
        + "\n     |  0  |  2  "
        + "\n  1  |  1  |  3  "
        + "\n     |     |     "
        + "\n-----+-----+-----"
        + "\n     |  2  |  0  "
        + "\n  2  |     |     "
        + "\n     |     |     ";
    assert_eq!(out, expected);
}

#[test]
fn step_branches_on_the_emptiest_table_with_the_first_player() {
    let tables = [1usize, 1, 1];
    let s = Scheduler::new(&tables, 3);
    assert_eq!(s.get_block_size(), 30);
    let mut b1 = vec![0u64; 30];
    assert!(s.initialise_buffer(&mut b1));
    let mut b2 = vec![0u64; 30];
    assert_eq!(s.step(&mut b1, &mut b2), Some(false));
    // the branch seats player 1 at the first table of the second round
    assert_eq!(b2[15], 2);
    assert_eq!(b2[1], 4);
    // the other side keeps that table empty and rules player 1 out there
    assert_eq!(b1[15], 0);
    assert_eq!(b1[24], 4);
    assert_eq!(b1[1], 3);
}

#[test]
fn step_ends_when_filled_tables_keep_free_seats() {
    // reached from the initial buffer of four tables of two over three rounds;
    // filling a table that had as many potential players as seats leaves a
    // seat free, and no table is left to branch on
    let tables = [2usize, 2, 2, 2];
    let s = Scheduler::new(&tables, 3);
    let mut b1: Vec<u64> = vec![
        60, 17, 8, 6, 9, 25, 6, 36, 16, 128, 64, 31, 15, 63, 192, 255, 31, 15, 3, 12, 48, 192, 20, 1, 10, 0, 8, 2,
        5, 0, 3, 12, 48, 192, 212, 225, 202, 32, 232, 242, 197, 48,
    ];
    assert_eq!(b1.len(), s.get_block_size());
    let mut b2 = vec![0u64; b1.len()];
    assert_eq!(s.step(&mut b1, &mut b2), Some(true));
    assert!(s.placed_in(&b1) < 24);
    assert_eq!(b2, vec![0u64; b1.len()]);
}
