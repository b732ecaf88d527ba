use bowling::Bowling;
use bowling::BowlingError;
use bowling::TenPinBowling;

fn play(rolls: &[i32]) -> TenPinBowling {
    let mut bowling = TenPinBowling::new();
    for &r in rolls {
        bowling.roll(r).unwrap();
    }
    bowling
}

#[test]
fn test_single_roll_of_zero() {
    let mut bowling = TenPinBowling::new();
    bowling.roll(0).unwrap();
    assert_eq!(0, bowling.score());
}

#[test]
fn test_roll_above_ten_rejected() {
    let mut bowling = TenPinBowling::new();
    let r = bowling.roll(11);
    assert!(matches!(r, Err(BowlingError::InvalidRoll(_))));
    assert_eq!(0, bowling.score());
}

#[test]
fn test_negative_roll_rejected() {
    let mut bowling = TenPinBowling::new();
    bowling.roll(3).unwrap();
    let r = bowling.roll(-1);
    assert!(matches!(r, Err(BowlingError::InvalidRoll(_))));
    assert_eq!(3, bowling.score());
}

#[test]
fn test_overfull_frame_keeps_score() {
    let mut bowling = TenPinBowling::new();
    bowling.roll(4).unwrap();
    let r = bowling.roll(8);
    assert!(matches!(r, Err(BowlingError::InvalidFrame(_))));
    assert_eq!(4, bowling.score());
    assert!(!bowling.finished());
}

#[test]
fn test_all_gutter_balls() {
    let bowling = play(&[0; 20]);
    assert_eq!(0, bowling.score());
    assert!(bowling.finished());
}

#[test]
fn test_spare_needing_second_roll_of_ten() {
    // a frame of [0, 10] is a spare, not a strike: it earns one bonus roll
    let bowling = play(&[0, 10, 5, 3]);
    assert_eq!(23, bowling.score());
}

#[test]
fn test_twelve_strikes_finish_the_game() {
    let mut bowling = play(&[10; 12]);
    assert_eq!(300, bowling.score());
    assert!(bowling.finished());
    let r = bowling.roll(0);
    assert!(matches!(r, Err(BowlingError::GameFinished(_))));
    assert_eq!(300, bowling.score());
    assert!(bowling.finished());
}

#[test]
fn test_final_frame_strike_allows_two_more_rolls() {
    let mut bowling = play(&[1, 1, 1, 1, 1, 1, 1, 1, 1, 1, 1, 1, 1, 1, 1, 1, 1, 1, 10]);
    assert!(!bowling.finished());
    bowling.roll(4).unwrap();
    assert!(!bowling.finished());
    bowling.roll(8).unwrap();
    assert!(bowling.finished());
    assert_eq!(40, bowling.score());
}

#[test]
fn test_final_frame_open_pair_ends_the_game() {
    let mut bowling = play(&[1, 1, 1, 1, 1, 1, 1, 1, 1, 1, 1, 1, 1, 1, 1, 1, 1, 1, 4, 3]);
    assert!(bowling.finished());
    assert_eq!(25, bowling.score());
    let r = bowling.roll(2);
    assert_eq!(
        Err(BowlingError::GameFinished(String::from(
            "Game already finished with 10 frames"
        ))),
        r
    );
    assert_eq!(25, bowling.score());
}

#[test]
fn test_replay_reproduces_score() {
    let rolls = [10, 4, 6, 3, 2, 10, 10, 0, 9, 5, 5, 7, 1, 8, 2, 10, 10, 6];
    let first = play(&rolls);
    let second = play(&rolls);
    assert_eq!(first.score(), second.score());
    assert_eq!(first.finished(), second.finished());
}

#[test]
fn test_reads_are_idempotent() {
    let bowling = play(&[10, 4, 6, 3]);
    let s1 = bowling.score();
    let s2 = bowling.score();
    assert_eq!(s1, s2);
    let f1 = bowling.finished();
    let f2 = bowling.finished();
    assert_eq!(f1, f2);
}
