use krarkinator::coin_flip::{coins_per_flip, Coin, FlipResult};
use krarkinator::source::CoinSource;

#[test]
fn coins_per_flip_is_a_power_of_two() {
    assert_eq!(coins_per_flip(0), 1);
    assert_eq!(coins_per_flip(1), 2);
    assert_eq!(coins_per_flip(3), 8);
    assert_eq!(coins_per_flip(63), 1usize << 63);
}

#[test]
fn coins_per_flip_saturates() {
    assert_eq!(coins_per_flip(64), usize::MAX);
    assert_eq!(coins_per_flip(1000), usize::MAX);
    assert_eq!(coins_per_flip(usize::MAX), usize::MAX);
}

#[test]
fn all_heads_draws_every_coin() {
    // four coins of heads, then the cycle goes on with tails
    let mut src = CoinSource::scripted(vec![true, true, true, true, false]);
    let mut flips = Coin::flip(2, 1);
    assert_eq!(flips.next(&mut src), Some(FlipResult::Heads));
    assert_eq!(flips.next(&mut src), None);
    assert_eq!(src.draw(), false);
}

#[test]
fn all_tails_is_tails() {
    let mut src = CoinSource::scripted(vec![false]);
    let mut flips = Coin::flip(3, 2);
    assert_eq!(flips.next(&mut src), Some(FlipResult::Tails));
    assert_eq!(flips.next(&mut src), Some(FlipResult::Tails));
    assert_eq!(flips.next(&mut src), None);
}

#[test]
fn mixed_trial_stops_early() {
    // heads then tails settles the trial after two of its four coins
    let mut src = CoinSource::scripted(vec![true, false, false, true]);
    let mut flips = Coin::flip(2, 1);
    assert_eq!(flips.next(&mut src), Some(FlipResult::Both));
    assert_eq!(src.draw(), false);
    assert_eq!(src.draw(), true);
}

#[test]
fn early_exit_matches_exhaustive_classification() {
    // exhaustively the four draws hold both faces, as the early stop says
    let draws = vec![false, false, true, false];
    let mut src = CoinSource::scripted(draws.clone());
    let mut flips = Coin::flip(2, 1);
    let exhaustive = if draws.iter().any(|d| *d) && draws.iter().any(|d| !*d) {
        FlipResult::Both
    } else if draws.iter().any(|d| *d) {
        FlipResult::Heads
    } else {
        FlipResult::Tails
    };
    assert_eq!(flips.next(&mut src), Some(exhaustive));
    assert_eq!(src.draw(), false);
}

#[test]
fn single_coin_trials_follow_the_coin() {
    let mut src = CoinSource::scripted(vec![true, false]);
    let mut flips = Coin::flip(0, 4);
    assert_eq!(flips.next(&mut src), Some(FlipResult::Heads));
    assert_eq!(flips.next(&mut src), Some(FlipResult::Tails));
    assert_eq!(flips.next(&mut src), Some(FlipResult::Heads));
    assert_eq!(flips.next(&mut src), Some(FlipResult::Tails));
    assert_eq!(flips.next(&mut src), None);
}

#[test]
fn zero_trials_draw_nothing() {
    let mut src = CoinSource::scripted(vec![true, false]);
    let mut flips = Coin::flip(5, 0);
    assert_eq!(flips.next(&mut src), None);
    assert_eq!(src.draw(), true);
}

#[test]
fn seeded_sources_repeat() {
    let mut a = CoinSource::seeded(7);
    let mut b = CoinSource::seeded(7);
    let xs: Vec<bool> = (0..64).map(|_| a.draw()).collect();
    let ys: Vec<bool> = (0..64).map(|_| b.draw()).collect();
    assert_eq!(xs, ys);
    assert!(xs.iter().any(|x| *x));
    assert!(xs.iter().any(|x| !*x));
}
