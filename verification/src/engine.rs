//! The executable scoring engine, proved against the model in `rules`.
//!
//! `TenPinBowling` keeps the frames in play order plus a cached running
//! score, recomputed from scratch after every accepted roll. A failed `roll`
//! leaves the engine exactly as it was.

use vstd::prelude::*;
use vstd::string::StringExecFns;

use crate::rules::FrameView;
use crate::rules::bonus_done;
use crate::rules::bonus_quota;
use crate::rules::frame_bounds;
use crate::rules::frame_complete;
use crate::rules::frame_limit;
use crate::rules::frame_total;
use crate::rules::frame_wf;
use crate::rules::frames_wf;
use crate::rules::game_finished;
use crate::rules::grant_bonus;
use crate::rules::is_spare;
use crate::rules::is_strike;
use crate::rules::lemma_frame_total_bound;
use crate::rules::lemma_sum_bounds;
use crate::rules::lemma_next_frames_wf;
use crate::rules::lemma_place_roll_wf;
use crate::rules::next_frames;
use crate::rules::place_roll;
use crate::rules::roll_fits;
use crate::rules::score_of;
use crate::rules::spare_start;
use crate::rules::sum;

verus! {

/// The pins a single roll can knock down at most; a first roll of exactly
/// this many is a strike.
const STRIKE: i32 = 10;

/// A full game holds exactly this many frames.
const MAX_FRAMES: usize = 10;

/// Why a call on the engine was refused.
#[derive(Debug, PartialEq, Eq)]
pub enum BowlingError {
    /// A single roll's pin count was negative or above ten.
    InvalidRoll(String),
    /// The roll would push the current frame past its pin limit.
    InvalidFrame(String),
    /// `roll` was called after the game reached its terminal state.
    GameFinished(String),
    /// A bonus value was outside the 0 to 10 range.
    InvalidPins,
    /// A bonus was offered to a frame whose bonus quota is already filled.
    BonusError,
    /// Reading input in the surrounding driver failed.
    IOError,
}

/// The rejection owed once the game is over: the exact error, and (stated at
/// the call site) an untouched engine.
pub open spec fn is_game_finished_err(r: Result<(), BowlingError>) -> bool {
    match r {
        Err(BowlingError::GameFinished(m)) => m@ == "Game already finished with 10 frames"@,
        _ => false,
    }
}

/// The rejection owed to a pin count outside 0 to 10.
pub open spec fn is_invalid_roll_err(r: Result<(), BowlingError>) -> bool {
    match r {
        Err(BowlingError::InvalidRoll(m)) => m@
            == "Invalid roll: a roll knocks down between 0 and 10 pins"@,
        _ => false,
    }
}

/// The rejection owed to a roll that would overfill its frame.
pub open spec fn is_invalid_frame_err(r: Result<(), BowlingError>, is_final: bool) -> bool {
    match r {
        Err(BowlingError::InvalidFrame(m)) => m@ == (if is_final {
            "Invalid frame: the last frame cannot exceed 30 pins"@
        } else {
            "Invalid frame: a frame cannot exceed 10 pins"@
        }),
        _ => false,
    }
}

/// Everything `roll` may do, as a relation between the frames before the
/// call, the roll, the frames after the call, and the returned value. The
/// checks happen in this order: end of game first, then the pin range, then
/// the frame limit; an accepted roll advances the state exactly as
/// `next_frames` says.
pub open spec fn roll_outcome(
    before: Seq<FrameView>,
    pins: int,
    after: Seq<FrameView>,
    r: Result<(), BowlingError>,
) -> bool {
    if game_finished(before) {
        after == before && is_game_finished_err(r)
    } else if pins < 0 || pins > 10 {
        after == before && is_invalid_roll_err(r)
    } else if !roll_fits(before, pins) {
        after == before && is_invalid_frame_err(r, before.len() == 10)
    } else {
        after == next_frames(before, pins) && r is Ok
    }
}

/// The operations a bowling scorer offers its driver. The contracts fix the
/// behaviour completely: `frames` is the abstract game state, `inv` the
/// implementor's invariant, and `roll` relates the states before and after
/// the call through `roll_outcome`.
pub trait Bowling: Sized {
    /// The abstract state: one `FrameView` per frame, in play order.
    spec fn frames(&self) -> Seq<FrameView>;

    /// The implementor's internal invariant, established by its constructor.
    spec fn inv(&self) -> bool;

    /// Accepts or rejects one roll of `pins` pins.
    fn roll(&mut self, pins: i32) -> (r: Result<(), BowlingError>)
        requires
            old(self).inv(),
        ensures
            final(self).inv(),
            roll_outcome(old(self).frames(), pins as int, final(self).frames(), r),
    ;

    /// The running score, as of the last accepted roll.
    fn score(&self) -> (r: i32)
        requires
            self.inv(),
        ensures
            r as int == score_of(self.frames()),
    ;

    /// Whether the game has reached its terminal state.
    fn finished(&self) -> (r: bool)
        requires
            self.inv(),
        ensures
            r == game_finished(self.frames()),
    ;
}

/// The pin counts of a vector of rolls, lifted to the model's integers.
spec fn pins_of(v: Seq<i32>) -> Seq<int> {
    v.map_values(|p: i32| p as int)
}

/// One frame of the game: the rolls made in it and the bonus pins granted to
/// it by rolls of later frames.
struct Frame {
    rolls: Vec<i32>,
    bonus: Vec<i32>,
}

impl View for Frame {
    type V = FrameView;

    closed spec fn view(&self) -> FrameView {
        FrameView { rolls: pins_of(self.rolls@), bonus: pins_of(self.bonus@) }
    }
}

/// Sum of at most three validated pin counts.
fn pin_sum(v: &Vec<i32>) -> (r: i32)
    requires
        v@.len() <= 3,
        forall|j: int| 0 <= j < v@.len() ==> 0 <= #[trigger] pins_of(v@)[j] <= 10,
    ensures
        r as int == sum(pins_of(v@)),
        0 <= r <= 30,
{
    let ghost s = pins_of(v@);
    let mut total: i32 = 0;
    let mut i: usize = 0;
    proof {
        assert(s.subrange(0, 0) =~= Seq::<int>::empty());
        assert(sum(Seq::<int>::empty()) == 0);
    }
    while i < v.len()
        invariant
            i <= v@.len(),
            v@.len() <= 3,
            forall|j: int| 0 <= j < v@.len() ==> 0 <= #[trigger] pins_of(v@)[j] <= 10,
            s == pins_of(v@),
            total as int == sum(s.subrange(0, i as int)),
            0 <= total <= 10 * (i as int),
        decreases v@.len() - i,
    {
        let p = v[i];
        proof {
            assert(s[i as int] == p as int);
            assert(s.subrange(0, i as int + 1).drop_last() =~= s.subrange(0, i as int));
            assert(s.subrange(0, i as int + 1).last() == s[i as int]);
        }
        total = total + p;
        i = i + 1;
    }
    proof {
        assert(s.subrange(0, v@.len() as int) =~= s);
    }
    total
}

impl Frame {
    /// Opens a frame holding its first roll.
    fn with_roll(pins: i32) -> (r: Result<Frame, BowlingError>)
        requires
            pins >= 0,
        ensures
            pins <= 10 ==> (r matches Ok(f) && f@ == (FrameView {
                rolls: seq![pins as int],
                bonus: Seq::empty(),
            })),
            pins > 10 ==> r matches Err(BowlingError::InvalidPins),
    {
        if pins > STRIKE {
            Err(BowlingError::InvalidPins)
        } else {
            let mut rolls: Vec<i32> = Vec::new();
            rolls.push(pins);
            let f = Frame { rolls, bonus: Vec::new() };
            proof {
                assert(f@.rolls =~= seq![pins as int]);
                assert(f@.bonus =~= Seq::<int>::empty());
                assert(f@ =~~= (FrameView { rolls: seq![pins as int], bonus: Seq::empty() }));
            }
            Ok(f)
        }
    }

    /// Appends a roll of the frame's own, refusing one that would push the
    /// frame past its pin limit.
    fn roll(&mut self, pins: i32, last: bool) -> (r: Result<(), BowlingError>)
        requires
            frame_wf(old(self)@, last),
            !frame_complete(old(self)@, last),
            0 <= pins <= 10,
        ensures
            sum(old(self)@.rolls) + pins > frame_limit(last) ==> (is_invalid_frame_err(r, last)
                && final(self)@ == old(self)@),
            sum(old(self)@.rolls) + pins <= frame_limit(last) ==> (r is Ok && final(self)@.rolls
                == old(self)@.rolls.push(pins as int) && final(self)@.bonus == old(self)@.bonus),
    {
        let s = pin_sum(&self.rolls);
        if last {
            if s + pins > 3 * STRIKE {
                return Err(
                    BowlingError::InvalidFrame(
                        String::from_str("Invalid frame: the last frame cannot exceed 30 pins"),
                    ),
                );
            }
        } else if s + pins > STRIKE {
            return Err(
                BowlingError::InvalidFrame(
                    String::from_str("Invalid frame: a frame cannot exceed 10 pins"),
                ),
            );
        }
        self.rolls.push(pins);
        proof {
            assert(self@.rolls =~= old(self)@.rolls.push(pins as int));
            assert(self@.bonus =~= old(self)@.bonus);
        }
        Ok(())
    }

    /// Records a bonus roll granted by a roll of a later frame.
    fn bonus(&mut self, pins: i32) -> (r: Result<(), BowlingError>)
        requires
            frame_bounds(old(self)@),
            old(self)@.bonus.len() <= bonus_quota(old(self)@),
        ensures
            (pins < 0 || pins > 10) ==> (r matches Err(BowlingError::InvalidPins) && final(self)@
                == old(self)@),
            (0 <= pins <= 10 && bonus_done(old(self)@)) ==> (r matches Err(
                BowlingError::BonusError,
            ) && final(self)@ == old(self)@),
            (0 <= pins <= 10 && !bonus_done(old(self)@)) ==> (r is Ok && final(self)@.rolls == old(
                self,
            )@.rolls && final(self)@.bonus == old(self)@.bonus.push(pins as int)),
    {
        if pins > STRIKE || pins < 0 {
            return Err(BowlingError::InvalidPins);
        }
        if self.bonus_complete() {
            Err(BowlingError::BonusError)
        } else {
            self.bonus.push(pins);
            proof {
                assert(self@.bonus =~= old(self)@.bonus.push(pins as int));
                assert(self@.rolls =~= old(self)@.rolls);
            }
            Ok(())
        }
    }

    /// Whether every bonus roll the frame is owed has been received.
    fn bonus_complete(&self) -> (r: bool)
        requires
            frame_bounds(self@),
            self@.bonus.len() <= bonus_quota(self@),
        ensures
            r == bonus_done(self@),
    {
        if self.strike() {
            self.bonus.len() == 2
        } else if self.spare() {
            self.bonus.len() == 1
        } else {
            true
        }
    }

    /// Whether the frame accepts no further roll of its own.
    fn complete(&self, last: bool) -> (r: bool)
        requires
            frame_bounds(self@),
        ensures
            r == frame_complete(self@, last),
    {
        if last {
            if self.strike() || self.spare_start() {
                self.rolls.len() == 3
            } else {
                self.rolls.len() == 2
            }
        } else {
            self.strike() || self.rolls.len() == 2
        }
    }

    /// Whether the frame's first roll was a strike.
    fn strike(&self) -> (r: bool)
        ensures
            r == is_strike(self@),
    {
        if self.rolls.len() == 0 {
            false
        } else {
            self.rolls[0] == STRIKE
        }
    }

    /// Whether the frame's two rolls made a spare.
    fn spare(&self) -> (r: bool)
        requires
            frame_bounds(self@),
        ensures
            r == is_spare(self@),
    {
        self.rolls.len() == 2 && pin_sum(&self.rolls) == STRIKE
    }

    /// Whether the frame's first two rolls made a spare.
    fn spare_start(&self) -> (r: bool)
        requires
            frame_bounds(self@),
        ensures
            r == spare_start(self@),
    {
        if self.rolls.len() >= 2 {
            proof {
                assert(self@.rolls[0] == self.rolls@[0] as int);
                assert(self@.rolls[1] == self.rolls@[1] as int);
            }
            let a = self.rolls[0];
            let b = self.rolls[1];
            a != STRIKE && a + b == STRIKE
        } else {
            false
        }
    }

    /// The frame's contribution to the score: its own pins plus its bonus pins.
    fn total(&self) -> (r: i32)
        requires
            frame_bounds(self@),
            self@.bonus.len() <= 2,
        ensures
            r as int == frame_total(self@),
            0 <= r <= 50,
    {
        let own = self.roll_sum();
        let extra = self.bonus_sum();
        own + extra
    }

    /// Sum of the frame's own rolls.
    fn roll_sum(&self) -> (r: i32)
        requires
            frame_bounds(self@),
        ensures
            r as int == sum(self@.rolls),
            0 <= r <= 30,
    {
        pin_sum(&self.rolls)
    }

    /// Sum of the bonus pins the frame has been granted.
    fn bonus_sum(&self) -> (r: i32)
        requires
            frame_bounds(self@),
            self@.bonus.len() <= 2,
        ensures
            r as int == sum(self@.bonus),
            0 <= r <= 20,
    {
        proof {
            lemma_sum_bounds(self@.bonus);
        }
        pin_sum(&self.bonus)
    }
}

/// The scoring engine: the frames in play order, plus the running score,
/// recomputed from scratch after every accepted roll.
pub struct TenPinBowling {
    frames: Vec<Frame>,
    current_score: i32,
}

impl View for TenPinBowling {
    type V = Seq<FrameView>;

    closed spec fn view(&self) -> Seq<FrameView> {
        self.frames@.map_values(|f: Frame| f@)
    }
}

impl TenPinBowling {
    /// Starts a game with no frames and a score of zero.
    pub fn new() -> (r: TenPinBowling)
        ensures
            r.inv(),
            r@ == Seq::<FrameView>::empty(),
            score_of(r@) == 0,
    {
        let r = TenPinBowling { frames: Vec::new(), current_score: 0 };
        proof {
            assert(r@ =~= Seq::<FrameView>::empty());
            assert(score_of(Seq::<FrameView>::empty()) == 0);
        }
        r
    }

    /// Whether play has reached the tenth frame.
    fn last_frame(&self) -> (r: bool)
        ensures
            r == (self@.len() == 10),
    {
        self.frames.len() == MAX_FRAMES
    }

    /// Opens a new frame holding this roll.
    fn add_new_frame(&mut self, pins: i32) -> (r: Result<(), BowlingError>)
        requires
            0 <= pins <= 10,
            old(self)@.len() < 10,
        ensures
            r is Ok,
            final(self)@ == old(self)@.push(
                FrameView { rolls: seq![pins as int], bonus: Seq::empty() },
            ),
            final(self).current_score == old(self).current_score,
    {
        match Frame::with_roll(pins) {
            Ok(frame) => {
                self.frames.push(frame);
                proof {
                    assert(self@ =~~= old(self)@.push(
                        FrameView { rolls: seq![pins as int], bonus: Seq::empty() },
                    ));
                }
                Ok(())
            },
            Err(e) => {
                proof {
                    assert(false);
                }
                Err(e)
            },
        }
    }

    /// Offers this roll as a bonus to every frame before the current one
    /// that is still owed a bonus roll.
    fn update_bonus(&mut self, pins: i32)
        requires
            0 <= pins <= 10,
            frames_wf(old(self)@),
        ensures
            final(self)@ == grant_bonus(old(self)@, pins as int),
            final(self).current_score == old(self).current_score,
    {
        let ghost fs0 = self@;
        let ghost score0 = self.current_score;
        if self.frames.len() < 2 {
            proof {
                assert(self@ =~~= grant_bonus(fs0, pins as int));
            }
            return;
        }
        let to = self.frames.len() - 1;
        let mut i: usize = 0;
        while i < to
            invariant
                0 <= pins <= 10,
                frames_wf(fs0),
                self@.len() == fs0.len(),
                to == fs0.len() - 1,
                i <= to,
                self.current_score == score0,
                forall|j: int| 0 <= j < i ==> #[trigger] self@[j] == grant_bonus(
                    fs0,
                    pins as int,
                )[j],
                forall|j: int| i <= j < fs0.len() ==> #[trigger] self@[j] == fs0[j],
            decreases to - i,
        {
            let ghost prev = self@;
            proof {
                assert(self@[i as int] == fs0[i as int]);
                assert(frame_wf(fs0[i as int], i == 9));
            }
            let needs = {
                let fr = &self.frames[i];
                proof {
                    assert(fr@ == self@[i as int]);
                }
                !fr.bonus_complete()
            };
            if needs {
                let fr = &mut self.frames[i];
                let _ = fr.bonus(pins);
                proof {
                    assert(self@[i as int] =~~= grant_bonus(fs0, pins as int)[i as int]);
                    assert(forall|j: int|
                        0 <= j < prev.len() && j != i ==> #[trigger] self@[j] == prev[j]);
                }
            } else {
                proof {
                    assert(self@[i as int] == grant_bonus(fs0, pins as int)[i as int]);
                    assert(self@ == prev);
                }
            }
            i = i + 1;
        }
        proof {
            assert(self@ =~~= grant_bonus(fs0, pins as int));
        }
    }

    /// Routes the roll: opens a new frame or extends the current one, then
    /// propagates the roll as a bonus to earlier frames. A refused roll
    /// leaves the engine untouched.
    fn update_frames(&mut self, pins: i32) -> (r: Result<(), BowlingError>)
        requires
            frames_wf(old(self)@),
            !game_finished(old(self)@),
            0 <= pins <= 10,
        ensures
            final(self).current_score == old(self).current_score,
            roll_fits(old(self)@, pins as int) ==> (r is Ok && final(self)@ == next_frames(
                old(self)@,
                pins as int,
            ) && frames_wf(final(self)@)),
            !roll_fits(old(self)@, pins as int) ==> (is_invalid_frame_err(
                r,
                old(self)@.len() == 10,
            ) && final(self)@ == old(self)@),
    {
        let ghost fs0 = self@;
        let last = self.last_frame();
        if self.frames.len() == 0 {
            let r = self.add_new_frame(pins);
            proof {
                lemma_next_frames_wf(fs0, pins as int);
                assert(self@ =~~= place_roll(fs0, pins as int));
                assert(self@ =~~= next_frames(fs0, pins as int));
            }
            r
        } else {
            let idx = self.frames.len() - 1;
            let is_done = {
                let fr = &self.frames[idx];
                proof {
                    assert(fr@ == fs0[idx as int]);
                    assert(frame_wf(fs0[idx as int], idx == 9));
                }
                fr.complete(last)
            };
            if is_done {
                proof {
                    if fs0.len() == 10 {
                        assert(frame_complete(fs0[9], true));
                        assert(false);
                    }
                }
                match self.add_new_frame(pins) {
                    Ok(()) => {},
                    Err(e) => {
                        proof {
                            assert(false);
                        }
                        return Err(e);
                    },
                }
                proof {
                    assert(self@ =~~= place_roll(fs0, pins as int));
                }
            } else {
                let fr = &mut self.frames[idx];
                let res = fr.roll(pins, last);
                match res {
                    Ok(()) => {
                        proof {
                            assert(self@ =~~= place_roll(fs0, pins as int));
                        }
                    },
                    Err(e) => {
                        proof {
                            assert(self@ =~~= fs0);
                        }
                        return Err(e);
                    },
                }
            }
            proof {
                lemma_place_roll_wf(fs0, pins as int);
                lemma_next_frames_wf(fs0, pins as int);
            }
            self.update_bonus(pins);
            proof {
                assert(self@ =~~= next_frames(fs0, pins as int));
            }
            Ok(())
        }
    }

    /// Recomputes the cached score from scratch over all frames.
    fn update_score(&mut self)
        requires
            frames_wf(old(self)@),
        ensures
            final(self)@ == old(self)@,
            final(self).current_score as int == score_of(final(self)@),
    {
        let ghost fs = self@;
        let mut total: i32 = 0;
        let mut i: usize = 0;
        proof {
            assert(fs.subrange(0, 0) =~= Seq::<FrameView>::empty());
            assert(score_of(Seq::<FrameView>::empty()) == 0);
        }
        while i < self.frames.len()
            invariant
                frames_wf(fs),
                self@ == fs,
                i <= fs.len(),
                total as int == score_of(fs.subrange(0, i as int)),
                0 <= total <= 30 * (i as int),
            decreases fs.len() - i,
        {
            proof {
                lemma_frame_total_bound(fs, i as int);
            }
            let t = {
                let fr = &self.frames[i];
                proof {
                    assert(fr@ == fs[i as int]);
                    assert(frame_wf(fs[i as int], i == 9));
                }
                fr.total()
            };
            proof {
                assert(fs.subrange(0, i as int + 1).drop_last() =~= fs.subrange(0, i as int));
                assert(fs.subrange(0, i as int + 1).last() == fs[i as int]);
            }
            total = total + t;
            i = i + 1;
        }
        proof {
            assert(fs.subrange(0, fs.len() as int) =~= fs);
        }
        self.current_score = total;
    }
}

impl Bowling for TenPinBowling {
    open spec fn frames(&self) -> Seq<FrameView> {
        self@
    }

    closed spec fn inv(&self) -> bool {
        frames_wf(self@) && self.current_score as int == score_of(self@)
    }

    fn roll(&mut self, pins: i32) -> (r: Result<(), BowlingError>) {
        if self.finished() {
            return Err(
                BowlingError::GameFinished(
                    String::from_str("Game already finished with 10 frames"),
                ),
            );
        }
        if pins > STRIKE || pins < 0 {
            return Err(
                BowlingError::InvalidRoll(
                    String::from_str("Invalid roll: a roll knocks down between 0 and 10 pins"),
                ),
            );
        }
        match self.update_frames(pins) {
            Ok(()) => {
                self.update_score();
                Ok(())
            },
            Err(e) => Err(e),
        }
    }

    fn score(&self) -> (r: i32) {
        self.current_score
    }

    fn finished(&self) -> (r: bool) {
        if self.frames.len() == MAX_FRAMES {
            let fr = &self.frames[MAX_FRAMES - 1];
            proof {
                assert(fr@ == self@[9]);
                assert(frame_wf(self@[9], true));
            }
            fr.complete(true)
        } else {
            false
        }
    }
}

} // verus!
