use c4_engine::c4::{Board, Player};
use c4_engine::rollout::{average_random_rollout, random_rollout, scored_run, seed_for, Playout};
use rand::{SeedableRng, XorShiftRng};

#[test]
fn seeds_follow_the_run_number() {
    assert_eq!(seed_for(0), [1, 2, 0, 20]);
    assert_eq!(seed_for(1), [2, 3, 3, 33]);
    assert_eq!(seed_for(5), [6, 7, 15, 105]);
    assert_eq!(seed_for(9), [10, 11, 27, 209]);
}

#[test]
fn seeds_wrap_and_are_never_all_zero() {
    assert_eq!(seed_for(u32::MAX), [0, 0xffff_fffd, 0xffff_fffd, 5]);
    assert_eq!(seed_for(0xffff_fffe), [0xffff_ffff, 0xffff_fffc, 0xffff_fffa, 0]);
    for run in [0u32, 1, 2, 0x5555_5555, 0x8000_0000, 0xffff_fff8, u32::MAX] {
        assert_ne!(seed_for(run), [0, 0, 0, 0]);
    }
}

#[test]
fn estimate_of_a_full_board_is_a_draw() {
    let board = Board::from_int_array(vec![1, -1, 1, -1, 1, -1], 3, 2);
    let mean = average_random_rollout(&board, &Player::P1, 10);
    assert_eq!(mean.total, 0);
    assert_eq!(mean.runs, 10);
}

#[test]
fn estimate_of_a_forced_win() {
    let board = Board::from_int_array(vec![1, 1, 1, 0], 4, 1);
    let mean = average_random_rollout(&board, &Player::P1, 10);
    assert_eq!(mean.total, 10);
    assert_eq!(mean.runs, 10);
    let board = Board::from_int_array(vec![0, -1, -1, -1], 4, 1);
    let mean = average_random_rollout(&board, &Player::P2, 7);
    assert_eq!(mean.total, -7);
    assert_eq!(mean.runs, 7);
}

#[test]
fn estimate_of_a_forced_draw() {
    let board = Board::from_int_array(vec![1, -1, 0, -1, 1], 5, 1);
    let mean = average_random_rollout(&board, &Player::P1, 10);
    assert_eq!(mean.total, 0);
    assert_eq!(mean.runs, 10);
}

#[test]
fn estimate_stays_within_one_point_a_run() {
    let board = Board::from_int_array(vec![0; 42], 7, 6);
    for n in [0u32, 1, 10, 25] {
        let mean = average_random_rollout(&board, &Player::P1, n);
        assert_eq!(mean.runs, n);
        assert!(-(n as i64) <= mean.total && mean.total <= n as i64);
    }
}

#[test]
fn estimate_is_the_sum_of_its_runs() {
    let board = Board::from_int_array(vec![0; 20], 5, 4);
    let mean = average_random_rollout(&board, &Player::P2, 12);
    let mut total = 0;
    for run in 0..12 {
        total += scored_run(&board, Player::P2, run);
    }
    assert_eq!(mean.total, total);
}

#[test]
fn runs_repeat_themselves() {
    let board = Board::from_int_array(vec![0; 42], 7, 6);
    for run in 0..20 {
        let first = scored_run(&board, Player::P1, run);
        let second = scored_run(&board, Player::P1, run);
        assert!(first == -1 || first == 0 || first == 1);
        assert_eq!(first, second);
    }
}

#[test]
fn playout_starts_with_every_column_open() {
    let board = Board::from_int_array(vec![0; 6], 3, 2);
    let game = Playout::new(&board, Player::P2);
    assert_eq!(game.open, vec![0, 1, 2]);
    assert_eq!(game.turn, Player::P2);
    assert_eq!(game.winner, None);
    assert_eq!(game.board.vector, board.vector);
}

#[test]
fn playout_on_a_full_board_is_drawn_at_once() {
    let board = Board::from_int_array(vec![1, -1, -1, 1], 2, 2);
    let game = Playout::new(&board, Player::P1);
    assert_eq!(game.winner, Some(Player::Empty));
}

#[test]
fn playout_drops_a_full_column_without_a_move() {
    let board = Board::from_int_array(vec![1, 0, 0], 3, 1);
    let mut game = Playout::new(&board, Player::P2);
    game.advance(0);
    assert_eq!(game.open, vec![1, 2]);
    assert_eq!(game.turn, Player::P2);
    assert_eq!(game.winner, None);
    assert_eq!(game.board.turn_number, 1);
    game.advance(1);
    assert_eq!(game.open, vec![1, 2]);
    assert_eq!(game.turn, Player::P1);
    assert_eq!(game.board.get(2, 0), Player::P2);
    assert_eq!(game.winner, None);
    game.advance(0);
    assert_eq!(game.winner, Some(Player::Empty));
    assert_eq!(game.board.turn_number, 3);
}

#[test]
fn playout_ends_when_no_column_is_left() {
    let mut board = Board::from_int_array(vec![0, 0, 0, 0], 2, 2);
    board.put(0, 1, Player::P1);
    board.put(1, 1, Player::P2);
    let mut game = Playout::new(&board, Player::P1);
    assert_eq!(game.winner, None);
    game.advance(1);
    assert_eq!(game.open, vec![0]);
    assert_eq!(game.winner, None);
    game.advance(0);
    assert_eq!(game.open, Vec::<u32>::new());
    assert_eq!(game.winner, Some(Player::Empty));
}

#[test]
fn playout_ends_with_the_mover_as_winner() {
    let board = Board::from_int_array(vec![-1, -1, -1, 0, 0], 5, 1);
    let mut game = Playout::new(&board, Player::P2);
    game.advance(3);
    assert_eq!(game.winner, Some(Player::P2));
    assert_eq!(game.turn, Player::P2);
    assert_eq!(game.board.get(3, 0), Player::P2);
}

#[test]
fn rollout_of_a_forced_win_names_the_winner() {
    let board = Board::from_int_array(vec![0, -1, -1, -1, 0, 0, 0, 0], 4, 2);
    let mut rng: XorShiftRng = SeedableRng::from_seed([1, 2, 3, 4]);
    assert_eq!(random_rollout(&board, &Player::P2, &mut rng), Player::P2);
    let full = Board::from_int_array(vec![1, -1, -1, 1], 4, 1);
    assert_eq!(random_rollout(&full, &Player::P1, &mut rng), Player::Empty);
}

#[test]
fn a_run_plays_on_the_stream_of_its_seed() {
    let board = Board::from_int_array(vec![0; 42], 7, 6);
    for run in 0..16 {
        let mut rng: XorShiftRng = SeedableRng::from_seed(seed_for(run));
        let winner = random_rollout(&board, &Player::P1, &mut rng);
        let expected = match winner {
            Player::P1 => 1,
            Player::P2 => -1,
            Player::Empty => 0,
        };
        assert_eq!(scored_run(&board, Player::P1, run), expected);
    }
}

#[test]
fn runs_differ_from_one_another() {
    let board = Board::from_int_array(vec![0; 42], 7, 6);
    let scores: Vec<i64> = (0..40).map(|run| scored_run(&board, Player::P1, run)).collect();
    assert!(scores.iter().any(|s| *s == 1));
    assert!(scores.iter().any(|s| *s == -1));
}
