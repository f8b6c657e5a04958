use krarkinator::cascade::{
    add_capped, play_round, run, run_with_ceiling, SimulationParameters, SimulationResult,
    TerminationPolicy,
};
use krarkinator::source::CoinSource;

fn params(k: usize, n: usize, policy: TerminationPolicy) -> SimulationParameters {
    SimulationParameters { stacking_factor: k, fixed_iterations: n, termination_policy: policy }
}

#[test]
fn fixed_count_alternating_coins() {
    let mut src = CoinSource::scripted(vec![true, false]);
    let r = run(params(1, 5, TerminationPolicy::FixedCount), &mut src);
    assert_eq!(r, SimulationResult { copy_count: 6, total_coins_flipped: 5 });
}

#[test]
fn no_coins_fixed_count() {
    let mut src = CoinSource::scripted(vec![false]);
    let r = run(params(0, 4, TerminationPolicy::FixedCount), &mut src);
    assert_eq!(r, SimulationResult { copy_count: 4, total_coins_flipped: 0 });
    assert_eq!(src.draw(), false);
}

#[test]
fn no_coins_until_terminated() {
    let mut src = CoinSource::scripted(vec![false]);
    let r = run(params(0, 9, TerminationPolicy::RunUntilTerminated), &mut src);
    assert_eq!(r, SimulationResult { copy_count: 1, total_coins_flipped: 0 });
}

#[test]
fn fixed_count_runs_every_round() {
    let mut src = CoinSource::scripted(vec![false]);
    let r = run(params(3, 7, TerminationPolicy::FixedCount), &mut src);
    assert_eq!(r, SimulationResult { copy_count: 14, total_coins_flipped: 21 });
    let mut seeded = CoinSource::seeded(3);
    let r = run(params(3, 10, TerminationPolicy::FixedCount), &mut seeded);
    assert_eq!(r.total_coins_flipped, 30);
}

#[test]
fn zero_iterations_do_nothing() {
    let mut src = CoinSource::scripted(vec![true]);
    let r = run(params(4, 0, TerminationPolicy::FixedCount), &mut src);
    assert_eq!(r, SimulationResult { copy_count: 0, total_coins_flipped: 0 });
}

#[test]
fn until_terminated_stops_on_round_without_tails() {
    let mut src = CoinSource::scripted(vec![false, true, true, true]);
    let r = run(params(2, 0, TerminationPolicy::RunUntilTerminated), &mut src);
    assert_eq!(r, SimulationResult { copy_count: 4, total_coins_flipped: 4 });
}

#[test]
fn until_terminated_all_heads_single_round() {
    let mut src = CoinSource::scripted(vec![true]);
    let r = run(params(2, 0, TerminationPolicy::RunUntilTerminated), &mut src);
    assert_eq!(r, SimulationResult { copy_count: 3, total_coins_flipped: 2 });
}

#[test]
fn always_tails_runs_to_the_ceiling() {
    let mut src = CoinSource::scripted(vec![false]);
    let r = run_with_ceiling(params(3, 0, TerminationPolicy::RunUntilTerminated), &mut src, 10);
    assert_eq!(r, SimulationResult { copy_count: 10, total_coins_flipped: 10 });
}

#[test]
fn counters_clamp_at_the_ceiling() {
    let mut src = CoinSource::scripted(vec![true]);
    let r = run_with_ceiling(params(2, 3, TerminationPolicy::FixedCount), &mut src, 4);
    assert_eq!(r, SimulationResult { copy_count: 4, total_coins_flipped: 4 });
}

#[test]
fn add_capped_saturates() {
    assert_eq!(add_capped(usize::MAX - 1, 5, usize::MAX), usize::MAX);
    assert_eq!(add_capped(usize::MAX, 1, usize::MAX), usize::MAX);
    assert_eq!(add_capped(3, 4, usize::MAX), 7);
    assert_eq!(add_capped(3, 4, 7), 7);
    assert_eq!(add_capped(3, 3, 7), 6);
}

#[test]
fn round_counts_draws_after_first_tails() {
    let mut src = CoinSource::scripted(vec![true, false, true]);
    let mut copies: usize = 0;
    let mut total: usize = 0;
    let tails = play_round(&mut src, 3, usize::MAX, &mut copies, &mut total);
    assert!(tails);
    assert_eq!((copies, total), (2, 3));
}

#[test]
fn round_without_tails_adds_one() {
    let mut src = CoinSource::scripted(vec![true]);
    let mut copies: usize = 5;
    let mut total: usize = 1;
    let tails = play_round(&mut src, 3, usize::MAX, &mut copies, &mut total);
    assert!(!tails);
    assert_eq!((copies, total), (9, 4));
}

#[test]
fn same_seed_same_result() {
    for policy in [TerminationPolicy::FixedCount, TerminationPolicy::RunUntilTerminated] {
        let p = params(4, 12, policy);
        let mut a = CoinSource::seeded(2024);
        let mut b = CoinSource::seeded(2024);
        assert_eq!(run(p, &mut a), run(p, &mut b));
        let script = vec![false, true, true, true, true, true, true];
        let mut c = CoinSource::scripted(script.clone());
        let mut d = CoinSource::scripted(script);
        assert_eq!(run(p, &mut c), run(p, &mut d));
    }
}
