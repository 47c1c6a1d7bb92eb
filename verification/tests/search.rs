use c4_engine::c4::{Board, Player};
use c4_engine::mcts::{discount, horizon_score, leaf_score, mcts, StepData, DEPTH, PLAYOUTS, UNIT};

#[test]
fn mcts_test() {
    let vector = vec![-1, -1, 0, 0, 1, 1, 0];
    let board = Board::from_int_array(vector, 7, 1);
    let k = mcts(&board, Player::P1);
    assert_eq!(k, 3);
}

#[test]
fn big_mcts_test() {
    let vector = vec![0; 49];
    let board = Board::from_int_array(vector, 7, 7);
    let k = mcts(&board, Player::P1);
    assert!(k != 0);
}

#[test]
fn search_takes_the_winning_move() {
    let board = Board::from_int_array(vec![1, 1, 1, 0, 0, -1, -1], 7, 1);
    assert_eq!(mcts(&board, Player::P1), 3);
    let board = Board::from_int_array(vec![1, 1, 0, 0, -1, -1, -1], 7, 1);
    assert_eq!(mcts(&board, Player::P2), 3);
}

#[test]
fn search_takes_the_only_move() {
    let board = Board::from_int_array(vec![1, -1, 1, -1, 0, -1, 1], 7, 1);
    assert_eq!(mcts(&board, Player::P1), 4);
    assert_eq!(mcts(&board, Player::P2), 4);
}

#[test]
fn search_leaves_the_board_alone() {
    let board = Board::from_int_array(vec![-1, -1, 0, 0, 1, 1, 0], 7, 1);
    let cells = board.vector.clone();
    mcts(&board, Player::P1);
    assert_eq!(board.vector, cells);
    assert_eq!(board.turn_number, 4);
}

#[test]
fn search_answers_the_same_each_time() {
    let board = Board::from_int_array(vec![0; 30], 6, 5);
    let first = mcts(&board, Player::P2);
    let second = mcts(&board, Player::P2);
    assert!(first < 6);
    assert_eq!(first, second);
}

#[test]
fn constants_of_the_search() {
    assert_eq!(UNIT, 100_000);
    assert_eq!(DEPTH, 5);
    assert_eq!(PLAYOUTS, 10);
}

#[test]
fn leaf_scores() {
    assert_eq!(leaf_score(Player::P1), 100_000);
    assert_eq!(leaf_score(Player::P2), -100_000);
    assert_eq!(leaf_score(Player::Empty), 0);
}

#[test]
fn horizon_scores() {
    assert_eq!(horizon_score(10), 100_000);
    assert_eq!(horizon_score(7), 70_000);
    assert_eq!(horizon_score(0), 0);
    assert_eq!(horizon_score(-3), -30_000);
    assert_eq!(horizon_score(-10), -100_000);
}

#[test]
fn discount_is_nine_tenths() {
    assert_eq!(discount(100_000), 90_000);
    assert_eq!(discount(-100_000), -90_000);
    assert_eq!(discount(90_000), 81_000);
    assert_eq!(discount(-70_000), -63_000);
    assert_eq!(discount(65_610), 59_049);
    assert_eq!(discount(0), 0);
    assert_eq!(discount(200_000), 180_000);
}

#[test]
fn step_data_starts_at_the_worst_value() {
    let max = StepData::new(Player::P1);
    assert_eq!((max.v, max.a, max.b, max.d), (-200_000, -200_000, 200_000, 5));
    assert_eq!(max.p, Player::P1);
    assert_eq!(max.best_move, None);
    let min = StepData::new(Player::P2);
    assert_eq!((min.v, min.a, min.b, min.d), (200_000, -200_000, 200_000, 5));
    assert_eq!(min.p, Player::P2);
    assert_eq!(min.best_move, None);
}

#[test]
fn next_flips_the_role_and_keeps_the_window() {
    let mut top = StepData::new(Player::P1);
    top.a = -5;
    top.b = 70;
    top.best_move = Some(2);
    let below = top.next();
    assert_eq!((below.v, below.a, below.b, below.d), (200_000, -5, 70, 4));
    assert_eq!(below.p, Player::P2);
    assert_eq!(below.best_move, None);
    let deeper = below.next();
    assert_eq!((deeper.v, deeper.a, deeper.b, deeper.d), (-200_000, -5, 70, 3));
    assert_eq!(deeper.p, Player::P1);
}

#[test]
fn maximizer_keeps_the_first_of_equal_moves() {
    let mut s = StepData::new(Player::P1);
    assert!(!s.update(0, 2));
    assert_eq!((s.v, s.a, s.b), (0, -200_000, 200_000));
    assert_eq!(s.best_move, Some(2));
    assert!(!s.update(0, 3));
    assert_eq!((s.v, s.a, s.b), (0, 0, 200_000));
    assert_eq!(s.best_move, Some(2));
    assert!(!s.update(-90_000, 4));
    assert_eq!((s.v, s.a, s.b), (0, 0, 200_000));
    assert_eq!(s.best_move, Some(2));
    assert!(!s.update(81_000, 6));
    assert_eq!((s.v, s.a, s.b), (81_000, 0, 200_000));
    assert_eq!(s.best_move, Some(6));
    assert_eq!(s.d, 5);
    assert_eq!(s.p, Player::P1);
}

#[test]
fn minimizer_lowers_beta_one_move_late() {
    let mut s = StepData::new(Player::P2);
    assert!(!s.update(90_000, 1));
    assert_eq!((s.v, s.a, s.b), (90_000, -200_000, 200_000));
    assert_eq!(s.best_move, Some(1));
    assert!(!s.update(90_000, 2));
    assert_eq!((s.v, s.a, s.b), (90_000, -200_000, 90_000));
    assert_eq!(s.best_move, Some(1));
    assert!(!s.update(-81_000, 5));
    assert_eq!((s.v, s.a, s.b), (-81_000, -200_000, 90_000));
    assert_eq!(s.best_move, Some(5));
}

#[test]
fn first_move_is_chosen_even_without_improvement() {
    let mut s = StepData::new(Player::P1);
    s.v = 50_000;
    s.a = 50_000;
    assert!(!s.update(10_000, 4));
    assert_eq!(s.v, 50_000);
    assert_eq!(s.best_move, Some(4));
    assert!(!s.update(20_000, 5));
    assert_eq!(s.best_move, Some(4));
}

#[test]
fn cutoff_names_the_move_that_caused_it() {
    let mut s = StepData::new(Player::P1);
    s.b = 0;
    assert!(!s.update(90_000, 1));
    assert_eq!((s.v, s.a, s.b), (90_000, -200_000, 0));
    assert_eq!(s.best_move, Some(1));
    assert!(s.update(50_000, 3));
    assert_eq!((s.v, s.a, s.b), (90_000, 90_000, 0));
    assert_eq!(s.best_move, Some(3));

    let mut t = StepData::new(Player::P2);
    t.a = 0;
    assert!(!t.update(-90_000, 0));
    assert_eq!((t.v, t.a, t.b), (-90_000, 0, 200_000));
    assert_eq!(t.best_move, Some(0));
    assert!(t.update(50_000, 6));
    assert_eq!((t.v, t.a, t.b), (-90_000, 0, -90_000));
    assert_eq!(t.best_move, Some(6));
}

#[test]
fn cutoff_on_an_improving_move() {
    let mut s = StepData::new(Player::P1);
    s.v = 10_000;
    s.b = 5_000;
    s.best_move = Some(0);
    assert!(s.update(70_000, 2));
    assert_eq!((s.v, s.a, s.b), (70_000, 10_000, 5_000));
    assert_eq!(s.best_move, Some(2));
}
