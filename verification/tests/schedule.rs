use social_schedule::schedule::Schedule;

fn stay_game() -> Vec<Vec<Vec<usize>>> {
    let round: Vec<Vec<usize>> = vec![
        vec![0, 1, 2, 3],
        vec![4, 5, 6, 7],
        vec![8, 9, 10, 11],
        vec![12, 13, 14, 15],
        vec![16, 17, 18, 19],
        vec![20, 21, 22, 23],
    ];
    let mut game: Vec<Vec<Vec<usize>>> = Vec::new();
    for _ in 0..6 {
        game.push(round.clone());
    }
    game
}

#[test]
fn unique_games_played_returns_number_of_player_when_players_stay() {
    let mut schedule = Schedule::from_vec(24, 6, stay_game());
    assert_eq!(24, schedule.find_unique_games_played());
}

#[test]
fn unique_opponents_is_team_size_when_players_stay() {
    let mut schedule = Schedule::from_vec(24, 6, stay_game());
    assert_eq!(3 * 24, schedule.find_unique_opponents());
}

use rand::SeedableRng;
use social_schedule::schedule::Generator;

fn rng(seed: u8) -> rand_xorshift::XorShiftRng {
    rand_xorshift::XorShiftRng::from_seed([seed; 16])
}

#[test]
fn new_schedule_has_ideals() {
    let s = Schedule::new(10, 3);
    assert_eq!(s.ideal_unique_games, 30);
    // share of 10 over 3 tables rounded up is 4: 10 * 3 * (4 - 1)
    assert_eq!(s.ideal_unique_opponents, 90);
    assert_eq!(s.get_player_count(), 10);
    assert_eq!(s.get_tables(), 3);
}

#[test]
fn normal_fill_maxes_unique_games() {
    for players in [1usize, 5, 12, 24, 40] {
        for tables in [2usize, 3, 6] {
            let mut s = Schedule::new(players, tables);
            s.normal_fill();
            assert_eq!(s.find_unique_games_played(), s.ideal_unique_games);
        }
    }
}

#[test]
fn random_schedules_stay_within_ideals() {
    for seed in 0..8u8 {
        let mut s = Schedule::new(17, 4);
        s.generate_random(&mut rng(seed));
        assert!(s.find_unique_games_played() <= s.ideal_unique_games);
        assert!(s.find_unique_opponents() <= s.ideal_unique_opponents);
        assert_eq!(s.get_score(), s.generate_score());
    }
}

#[test]
fn get_game_lists_players_in_order() {
    let data = vec![vec![vec![3, 0], vec![2, 1]], vec![vec![0, 1], vec![2, 3]]];
    let s = Schedule::from_vec(4, 2, data);
    assert_eq!(s.get_game(0, 0), vec![0, 3]);
    assert_eq!(s.get_game(1, 1), vec![2, 3]);
}

#[test]
fn improve_table_without_apply_keeps_schedule() {
    let mut s = Schedule::new(8, 2);
    s.generate_random(&mut rng(3));
    let score = s.get_score();
    let before = (s.get_game(0, 0), s.get_game(0, 1));
    let (best, _) = s.improve_table(score, 0, 0, 1, false);
    assert!(best >= score);
    assert_eq!((s.get_game(0, 0), s.get_game(0, 1)), before);
    assert_eq!(s.get_score(), score);
}

#[test]
fn score_doesnt_decrease_after_process() {
    for seed in 0..4u8 {
        let mut g = Generator::new(rng(seed), 12, 3);
        for _ in 0..50 {
            let old = g.best_score;
            g.process();
            assert!(g.best_score >= old);
        }
    }
}

#[test]
fn display_grid_lists_games_by_column() {
    let data = vec![vec![vec![0, 1], vec![2, 3]], vec![vec![0, 2], vec![1, 3]]];
    let s = Schedule::from_vec(4, 2, data);
    let mut out = String::new();
    s.display_grid(&mut out);
    let expected = String::new()
        + "     |  1  |  2  "
        + "\n-----+-----+-----"
        + "\n     |  0  |  2  "
        + "\n  1  |  1  |  3  "
        + "\n     |     |     "
        + "\n-----+-----+-----"
        + "\n     |  0  |  1  "
        + "\n  2  |  2  |  3  "
        + "\n     |     |     ";
    assert_eq!(out, expected);
}

#[test]
fn random_rounds_are_shuffled() {
    // without shuffling, dealing 8 players over 2 tables would always split
    // them by parity
    let parity = |game: &Vec<usize>| game.iter().all(|p| p % 2 == game[0] % 2);
    let mut shuffled = false;
    for seed in 0..8u8 {
        let mut s = Schedule::new(8, 2);
        s.generate_random(&mut rng(seed));
        for round in 0..2 {
            for table in 0..2 {
                let game = s.get_game(round, table);
                if !game.is_empty() && !parity(&game) {
                    shuffled = true;
                }
            }
        }
    }
    assert!(shuffled);
}

#[test]
fn random_rounds_seat_everyone_once() {
    let mut s = Schedule::new(13, 4);
    s.generate_random(&mut rng(11));
    for round in 0..4 {
        let mut seen = Vec::new();
        for table in 0..4 {
            let game = s.get_game(round, table);
            // dealt in turn: no table has more than the rounded-up share
            assert!(game.len() <= 4);
            seen.extend(game);
        }
        seen.sort();
        assert_eq!(seen, (0..13).collect::<Vec<usize>>());
    }
}

#[test]
fn improve_table_applies_first_of_equal_trades() {
    let data = vec![vec![vec![0, 1], vec![2, 3]], vec![vec![0, 1], vec![2, 3]]];
    let mut s = Schedule::from_vec(4, 2, data);
    assert_eq!(s.get_score(), 96);
    assert_eq!(s.improve_table(96, 1, 0, 1, true), (160, 6));
    assert_eq!(s.get_game(1, 0), vec![1, 2]);
    assert_eq!(s.get_game(1, 1), vec![0, 3]);
    assert_eq!(s.get_score(), 160);
    assert_eq!(s.generate_score(), 160);
}

#[test]
fn from_vec_counts_an_unlisted_player_with_the_first_game() {
    let data = vec![vec![vec![0, 1], vec![2, 3]]];
    let mut s = Schedule::from_vec(5, 2, data);
    assert_eq!(s.get_game(0, 0), vec![0, 1]);
    assert_eq!(s.get_score(), s.generate_score());
}

#[test]
fn import_vec_takes_in_the_games_of_the_data() {
    let data = vec![vec![vec![3, 0], vec![2, 1]], vec![vec![1, 0], vec![3, 2]]];
    let mut s = Schedule::new(4, 2);
    s.import_vec(data);
    assert_eq!(s.get_game(0, 0), vec![0, 3]);
    assert_eq!(s.get_game(0, 1), vec![1, 2]);
    assert_eq!(s.get_game(1, 0), vec![0, 1]);
    assert_eq!(s.get_game(1, 1), vec![2, 3]);
    assert_eq!(s.unique_games_played(), s.find_unique_games_played());
    assert_eq!(s.unique_opponents(), s.find_unique_opponents());
    assert_eq!(s.get_score(), s.generate_score());
}
