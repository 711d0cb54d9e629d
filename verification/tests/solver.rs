use nickracker::solver::{compare, SolverContext, POSSIBLE_ANSWERS};
use nickracker::solver::idx_to_answer;

#[test]
fn compares() {
    assert_eq!(compare(&[[0, 5, 0, 3], [3, 3, 4, 4]]), (0, 1));
    assert_eq!(compare(&[[0, 5, 0, 3], [0, 0, 1, 2]]), (1, 1));
    assert_eq!(compare(&[[5, 4, 2, 0], [0, 0, 1, 1]]), (0, 1));
    assert_eq!(compare(&[[5, 0, 2, 3], [0, 0, 1, 1]]), (1, 0));
    assert_eq!(compare(&[[0, 3, 4, 4], [0, 0, 1, 1]]), (1, 0));
    assert_eq!(compare(&[[3, 1, 0, 4], [0, 0, 1, 1]]), (0, 2));
}

#[test]
fn solves() {
    let mut solver = SolverContext::new();
    solver.solve([0, 5, 0, 3]);
    solver.solve([3, 1, 0, 4]);
    solver.solve([5, 0, 2, 3]);
    solver.solve([0, 3, 4, 4]);
    solver.solve([5, 4, 2, 0]);
}

fn exhaustive_test(first: usize, last: usize) {
    let mut state = SolverContext::new();
    let mut max_tries = 0;
    for i in first..last {
        let secret = idx_to_answer(i);
        let try_count = state.solve(secret);
        if try_count > max_tries {
            max_tries = try_count;
        }
    }
    println!("max tries: {}", max_tries);
}

#[test]
fn not_quite_exhaustive() {
    let n = POSSIBLE_ANSWERS / 128;
    exhaustive_test(0, n);
    exhaustive_test(POSSIBLE_ANSWERS - n, POSSIBLE_ANSWERS);
}

use nickracker::solver::{answer_to_idx, compare2};

#[test]
fn index_conversions_match_base_twelve_digits() {
    assert_eq!(idx_to_answer(0), [0, 0, 0, 0]);
    assert_eq!(idx_to_answer(1729), [1, 0, 0, 1]);
    assert_eq!(idx_to_answer(POSSIBLE_ANSWERS - 1), [11, 11, 11, 11]);
    assert_eq!(answer_to_idx([1, 2, 3, 4]), 1 + 2 * 12 + 3 * 144 + 4 * 1728);
}

#[test]
fn index_roundtrip_for_every_answer() {
    for idx in 0..POSSIBLE_ANSWERS {
        let ans = idx_to_answer(idx);
        assert!(ans.iter().all(|&s| s < 12));
        assert_eq!(answer_to_idx(ans), idx);
    }
}

#[test]
fn score_is_symmetric_and_bounded() {
    for i in (0..POSSIBLE_ANSWERS).step_by(97) {
        for j in (0..POSSIBLE_ANSWERS).step_by(89) {
            let a = idx_to_answer(i);
            let b = idx_to_answer(j);
            let ab = compare(&[a, b]);
            assert_eq!(ab, compare(&[b, a]));
            assert!(ab.0 + ab.1 <= 4);
            assert_eq!(ab.0 == 4, a == b);
        }
    }
}

#[test]
fn score_of_answer_against_itself() {
    assert_eq!(compare(&[[3, 3, 7, 11], [3, 3, 7, 11]]), (4, 0));
    assert_eq!(compare(&[[0, 1, 2, 3], [3, 2, 1, 0]]), (0, 4));
    assert_eq!(compare(&[[0, 0, 0, 0], [1, 1, 1, 1]]), (0, 0));
}

#[test]
fn compare2_gives_the_score_of_compare() {
    assert_eq!(compare2(&[[0, 0, 2, 3], [1, 1, 0, 4]]), (0, 1));
    assert_eq!(compare2(&[[0, 1, 1, 1], [1, 0, 0, 0]]), (0, 2));
    assert_eq!(compare2(&[[0, 5, 0, 3], [0, 0, 1, 2]]), (1, 1));
    assert_eq!(compare2(&[[3, 3, 4, 4], [3, 3, 4, 4]]), (4, 0));
    for i in (0..POSSIBLE_ANSWERS).step_by(97) {
        for j in (0..POSSIBLE_ANSWERS).step_by(389) {
            let pair = [idx_to_answer(i), idx_to_answer(j)];
            assert_eq!(compare2(&pair), compare(&pair));
        }
    }
}

#[test]
fn opening_guesses_are_fixed() {
    let mut solver = SolverContext::new();
    assert_eq!(solver.guess(), [0, 0, 1, 2]);
    assert_eq!(solver.guess(), [3, 3, 4, 4]);
    assert_eq!(solver.guess(), [5, 5, 6, 6]);
    assert_eq!(solver.attempt(), 3);
}

#[test]
fn result_keeps_only_consistent_answers() {
    let mut solver = SolverContext::new();
    assert_eq!(solver.remaining_count(), POSSIBLE_ANSWERS);
    let secret = [7, 1, 0, 9];
    let guess = solver.guess();
    let (p, s) = compare(&[secret, guess]);
    assert!(solver.has_consistent_candidate(guess, p, s));
    solver.apply_result(guess, p, s);
    let mut expected = 0;
    for idx in 0..POSSIBLE_ANSWERS {
        let consistent = compare(&[idx_to_answer(idx), guess]) == (p, s);
        assert_eq!(solver.is_ruled_out(idx), !consistent);
        if consistent {
            expected += 1;
        }
    }
    assert_eq!(solver.remaining_count(), expected);
    assert!(!solver.is_ruled_out(answer_to_idx(secret)));
    let (first, last) = solver.bounds();
    assert!(!solver.is_ruled_out(first));
    assert!(!solver.is_ruled_out(last - 1));
    assert!((0..first).all(|i| solver.is_ruled_out(i)));
    assert!((last..POSSIBLE_ANSWERS).all(|i| solver.is_ruled_out(i)));
}

#[test]
fn impossible_result_is_detected() {
    let solver = SolverContext::new();
    assert!(!solver.has_consistent_candidate([0, 0, 1, 2], 3, 1));
    assert!(solver.has_consistent_candidate([0, 0, 1, 2], 2, 2));
}

#[test]
fn reset_restores_a_fresh_solver() {
    let mut solver = SolverContext::default();
    let g = solver.guess();
    solver.apply_result(g, 0, 0);
    assert!(solver.remaining_count() < POSSIBLE_ANSWERS);
    solver.reset();
    assert_eq!(solver.remaining_count(), POSSIBLE_ANSWERS);
    assert_eq!(solver.bounds(), (0, POSSIBLE_ANSWERS));
    assert_eq!(solver.attempt(), 0);
    assert_eq!(solver.guess(), [0, 0, 1, 2]);
}

#[test]
fn game_never_repeats_a_guess_and_ends_on_the_secret() {
    for secret in [[0, 5, 0, 3], [11, 10, 11, 10], [4, 4, 4, 4], [9, 8, 7, 6]] {
        let mut solver = SolverContext::new();
        let mut last = None;
        let mut tries = 0;
        loop {
            tries += 1;
            let guess = solver.guess();
            assert_ne!(Some(guess), last);
            if guess == secret {
                break;
            }
            let (p, s) = compare(&[secret, guess]);
            assert!(solver.has_consistent_candidate(guess, p, s));
            solver.apply_result(guess, p, s);
            assert!(!solver.is_ruled_out(answer_to_idx(secret)));
            assert!(solver.is_ruled_out(answer_to_idx(guess)));
            last = Some(guess);
        }
        assert_eq!(SolverContext::new().solve(secret), tries);
        assert!(tries <= 12);
    }
}

#[test]
fn solves_known_secret_in_a_few_guesses() {
    let mut solver = SolverContext::new();
    let tries = solver.solve([3, 4, 5, 1]);
    assert!(tries >= 1 && tries <= 12);
}

#[test]
fn checked_solve_agrees_with_solve() {
    let mut solver = SolverContext::new();
    let tries = solver.solve([3, 4, 5, 1]);
    assert_eq!(solver.try_solve([3, 4, 5, 1]), Some(tries));
    assert!(tries >= 1 && tries <= 12);
}

#[test]
fn hard_secrets_are_solved_within_twelve_guesses() {
    let mut solver = SolverContext::new();
    assert_eq!(solver.solve([10, 11, 1, 2]), 9);
    assert_eq!(solver.solve([11, 2, 4, 4]), 11);
}

#[test]
fn scoring_a_possible_guess_rules_it_out() {
    let secret = [3, 1, 0, 4];
    let mut solver = SolverContext::new();
    let before = solver.remaining_count();
    assert_eq!(before, POSSIBLE_ANSWERS);
    let guess = solver.guess();
    let res = compare(&[secret, guess]);
    solver.apply_result(guess, res.0, res.1);
    assert!(solver.is_ruled_out(nickracker::solver::answer_to_idx(guess)));
    assert!(!solver.is_ruled_out(nickracker::solver::answer_to_idx(secret)));
    assert!(solver.remaining_count() < before);
}
