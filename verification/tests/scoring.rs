use bowling::Bowling;
use bowling::BowlingError;
use bowling::TenPinBowling;

#[test]
fn test_no_rolls_score_is_zero() {
    let bowling = TenPinBowling::new();
    assert_eq!(0, bowling.score());
}

#[test]
fn test_single_roll_score() {
    let mut bowling = TenPinBowling::new();
    bowling.roll(5).unwrap();
    assert_eq!(5, bowling.score());
}

#[test]
fn test_frame_score() {
    let mut bowling = TenPinBowling::new();
    bowling.roll(5).unwrap();
    bowling.roll(4).unwrap();
    assert_eq!(9, bowling.score());
}

#[test]
fn test_frame_with_strike() {
    let mut bowling = TenPinBowling::new();
    bowling.roll(10).unwrap();
    assert_eq!(10, bowling.score());
}

#[test]
fn test_rolls_after_strike() {
    let mut bowling = TenPinBowling::new();
    bowling.roll(10).unwrap();
    bowling.roll(5).unwrap();
    bowling.roll(4).unwrap();
    assert_eq!(28, bowling.score());
}

#[test]
fn test_rolls_after_spare() {
    let mut bowling = TenPinBowling::new();
    bowling.roll(4).unwrap();
    bowling.roll(6).unwrap();
    bowling.roll(5).unwrap();
    bowling.roll(3).unwrap();
    assert_eq!(23, bowling.score());
}

#[test]
fn test_invalid_rolls() {
    let mut bowling = TenPinBowling::new();
    assert!(bowling.roll(4).is_ok());
    assert!(bowling.roll(8).is_err()); // now frame is 11 which is invalid
}

#[test]
fn test_max_score() {
    let mut bowling = TenPinBowling::new();
    assert!(bowling.roll(10).is_ok());
    assert!(bowling.roll(10).is_ok());
    assert!(bowling.roll(10).is_ok());
    assert!(bowling.roll(10).is_ok());
    assert!(bowling.roll(10).is_ok());
    assert!(bowling.roll(10).is_ok());
    assert!(bowling.roll(10).is_ok());
    assert!(bowling.roll(10).is_ok());
    assert!(bowling.roll(10).is_ok());
    assert!(bowling.roll(10).is_ok());
    assert!(bowling.roll(10).is_ok());
    assert!(bowling.roll(10).is_ok());
    assert_eq!(300, bowling.score());

    // No more play is allowed after the last frame
    assert_eq!(
        Err(BowlingError::GameFinished(format!(
            "Game already finished with 10 frames"
        ))),
        bowling.roll(4)
    );
}

fn get_score(bowling: &mut TenPinBowling, rolls: &[i32]) -> i32 {
    rolls.iter().for_each(|&r| bowling.roll(r).unwrap());
    bowling.score()
}

#[test]
fn test_scores() {
    assert_eq!(3, get_score(&mut TenPinBowling::new(), &[1, 1, 1]));
    assert_eq!(
        12,
        get_score(
            &mut TenPinBowling::new(),
            &[1, 1, 1, 1, 1, 1, 1, 1, 1, 1, 1, 1]
        )
    );
    assert_eq!(
        14,
        get_score(
            &mut TenPinBowling::new(),
            &[1, 1, 1, 1, 1, 1, 1, 1, 1, 1, 1, 1, 1, 1]
        )
    );

    // Just rolling 20 of 1s
    assert_eq!(
        20,
        get_score(
            &mut TenPinBowling::new(),
            &[1, 1, 1, 1, 1, 1, 1, 1, 1, 1, 1, 1, 1, 1, 1, 1, 1, 1, 1, 1]
        )
    );

    // Just rolling 17 of 1s with a spare in last frame allowing one more roll (3)
    assert_eq!(
        31,
        get_score(
            &mut TenPinBowling::new(),
            &[1, 1, 1, 1, 1, 1, 1, 1, 1, 1, 1, 1, 1, 1, 1, 1, 1, 1, 4, 6, 3]
        )
    );

    // Just rolling 17 of 1s with a spare in last frame allowing one more roll (3)
    assert_eq!(
        48,
        get_score(
            &mut TenPinBowling::new(),
            &[1, 1, 1, 1, 1, 1, 1, 1, 1, 1, 1, 1, 1, 1, 1, 1, 1, 1, 10, 10, 10]
        )
    );
}
