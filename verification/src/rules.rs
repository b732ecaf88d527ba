//! The mathematical model of ten-pin bowling scoring.
//!
//! A game is a sequence of up to ten frames. Each frame owns the rolls made
//! in it (one or two, up to three in the tenth frame) and the bonus pins that
//! rolls of later frames have contributed to it: two bonus rolls after a
//! strike, one after a spare. The score is the sum over all frames of the
//! frame's own pins plus its bonus pins.

use vstd::prelude::*;

verus! {

/// Mathematical image of one frame: the pin counts of the rolls made in it,
/// and the bonus pin counts that rolls of later frames have contributed to it.
#[verifier::ext_equal]
pub ghost struct FrameView {
    pub rolls: Seq<int>,
    pub bonus: Seq<int>,
}

/// Sum of a sequence of pin counts.
pub open spec fn sum(s: Seq<int>) -> int
    decreases s.len(),
{
    if s.len() == 0 {
        0
    } else {
        sum(s.drop_last()) + s.last()
    }
}

/// A strike: the frame's first roll knocked down all ten pins.
pub open spec fn is_strike(f: FrameView) -> bool {
    f.rolls.len() >= 1 && f.rolls[0] == 10
}

/// A spare: exactly two rolls that together knocked down all ten pins.
pub open spec fn is_spare(f: FrameView) -> bool {
    f.rolls.len() == 2 && sum(f.rolls) == 10
}

/// The frame's first two rolls made a spare. In the final frame this is what
/// earns a third roll, so it must be judged on the first two rolls alone.
pub open spec fn spare_start(f: FrameView) -> bool {
    f.rolls.len() >= 2 && f.rolls[0] != 10 && f.rolls[0] + f.rolls[1] == 10
}

/// How many bonus rolls the frame is owed in total.
pub open spec fn bonus_quota(f: FrameView) -> int {
    if is_strike(f) {
        2
    } else if is_spare(f) {
        1
    } else {
        0
    }
}

/// Whether the frame has received every bonus roll it is owed.
pub open spec fn bonus_done(f: FrameView) -> bool {
    f.bonus.len() >= bonus_quota(f)
}

/// The most pins a frame may accumulate over its own rolls.
pub open spec fn frame_limit(is_final: bool) -> int {
    if is_final {
        30
    } else {
        10
    }
}

/// Whether the frame accepts no further roll of its own. A non-final frame
/// closes on a strike or after two rolls; the final frame closes after two
/// rolls, or after three when a strike or spare earned the extra roll.
pub open spec fn frame_complete(f: FrameView, is_final: bool) -> bool {
    if is_final {
        if is_strike(f) || spare_start(f) {
            f.rolls.len() == 3
        } else {
            f.rolls.len() == 2
        }
    } else {
        is_strike(f) || f.rolls.len() == 2
    }
}

/// The frame's contribution to the game score: its own pins plus its bonus pins.
pub open spec fn frame_total(f: FrameView) -> int {
    sum(f.rolls) + sum(f.bonus)
}

/// The game score: the sum of every frame's total.
pub open spec fn score_of(fs: Seq<FrameView>) -> int
    decreases fs.len(),
{
    if fs.len() == 0 {
        0
    } else {
        score_of(fs.drop_last()) + frame_total(fs.last())
    }
}

/// The game is over when ten frames exist and the tenth is complete.
pub open spec fn game_finished(fs: Seq<FrameView>) -> bool {
    fs.len() == 10 && frame_complete(fs[9], true)
}

/// Whether the next roll opens a new frame rather than extending the last one.
pub open spec fn opens_new_frame(fs: Seq<FrameView>) -> bool {
    fs.len() == 0 || frame_complete(fs.last(), fs.len() == 10)
}

/// Whether a roll of `pins` is admissible for the frame it would land in.
pub open spec fn roll_fits(fs: Seq<FrameView>, pins: int) -> bool {
    opens_new_frame(fs) || sum(fs.last().rolls) + pins <= frame_limit(fs.len() == 10)
}

/// The frames after the roll itself is recorded: either a fresh frame holding
/// this one roll, or the last frame extended by it.
pub open spec fn place_roll(fs: Seq<FrameView>, pins: int) -> Seq<FrameView> {
    if opens_new_frame(fs) {
        fs.push(FrameView { rolls: seq![pins], bonus: Seq::empty() })
    } else {
        fs.update(
            fs.len() - 1,
            FrameView { rolls: fs.last().rolls.push(pins), bonus: fs.last().bonus },
        )
    }
}

/// The frames after the roll is offered as a bonus to every earlier frame
/// still owed one; the frame the roll landed in never receives it.
pub open spec fn grant_bonus(fs: Seq<FrameView>, pins: int) -> Seq<FrameView> {
    Seq::new(
        fs.len(),
        |i: int|
            if i < fs.len() - 1 && !bonus_done(fs[i]) {
                FrameView { rolls: fs[i].rolls, bonus: fs[i].bonus.push(pins) }
            } else {
                fs[i]
            },
    )
}

/// One accepted roll: record it, then propagate it as a bonus.
pub open spec fn next_frames(fs: Seq<FrameView>, pins: int) -> Seq<FrameView> {
    grant_bonus(place_roll(fs, pins), pins)
}

/// Structural bounds every live frame obeys: at least one roll, at most
/// three, every pin count between 0 and 10.
pub open spec fn frame_bounds(f: FrameView) -> bool {
    &&& 1 <= f.rolls.len() <= 3
    &&& (forall|j: int| 0 <= j < f.rolls.len() ==> 0 <= #[trigger] f.rolls[j] <= 10)
    &&& (forall|j: int| 0 <= j < f.bonus.len() ==> 0 <= #[trigger] f.bonus[j] <= 10)
}

/// Everything the engine maintains of a single frame, beyond `frame_bounds`:
/// the pin limit for its place in the game, a strike standing alone in a
/// non-final frame, a third final-frame roll only after a strike or spare,
/// and never more bonus rolls than the frame is owed.
pub open spec fn frame_wf(f: FrameView, is_final: bool) -> bool {
    &&& frame_bounds(f)
    &&& f.rolls.len() <= (if is_final {
        3int
    } else {
        2int
    })
    &&& sum(f.rolls) <= frame_limit(is_final)
    &&& ((!is_final && is_strike(f)) ==> f.rolls.len() == 1)
    &&& ((is_final && f.rolls.len() == 3) ==> (is_strike(f) || spare_start(f)))
    &&& f.bonus.len() <= bonus_quota(f)
}

/// The engine's frame-sequence invariant: at most ten frames, each one
/// well formed for its position, every frame but the last complete, and the
/// last frame not yet holding any bonus (bonuses only ever reach frames that
/// a later frame has been opened after).
pub open spec fn frames_wf(fs: Seq<FrameView>) -> bool {
    &&& fs.len() <= 10
    &&& (forall|i: int| 0 <= i < fs.len() ==> frame_wf(#[trigger] fs[i], i == 9))
    &&& (forall|i: int| 0 <= i < fs.len() - 1 ==> frame_complete(#[trigger] fs[i], i == 9))
    &&& (fs.len() > 0 ==> fs.last().bonus.len() == 0)
}

/// Appending one value adds it to the sum.
pub proof fn lemma_sum_push(s: Seq<int>, x: int)
    ensures
        sum(s.push(x)) == sum(s) + x,
{
    assert(s.push(x).drop_last() =~= s);
}

/// A sequence of pin counts sums to something between 0 and ten per entry.
pub proof fn lemma_sum_bounds(s: Seq<int>)
    requires
        forall|j: int| 0 <= j < s.len() ==> 0 <= #[trigger] s[j] <= 10,
    ensures
        0 <= sum(s) <= 10 * s.len(),
    decreases s.len(),
{
    if s.len() > 0 {
        assert(forall|j: int|
            0 <= j < s.drop_last().len() ==> 0 <= #[trigger] s.drop_last()[j] <= 10);
        lemma_sum_bounds(s.drop_last());
    }
}

/// Under the engine invariant every frame contributes between 0 and 30 to
/// the score: an earlier frame holds at most 10 of its own pins and at most
/// two bonus rolls; the last frame holds at most 30 pins and no bonus.
pub proof fn lemma_frame_total_bound(fs: Seq<FrameView>, i: int)
    requires
        frames_wf(fs),
        0 <= i < fs.len(),
    ensures
        0 <= frame_total(fs[i]) <= 30,
{
    lemma_sum_bounds(fs[i].rolls);
    lemma_sum_bounds(fs[i].bonus);
    if i == fs.len() - 1 {
        assert(fs[i] == fs.last());
    }
}

/// The score of any prefix of a well-formed game lies between 0 and 30 per frame.
pub proof fn lemma_score_prefix_bound(fs: Seq<FrameView>, k: int)
    requires
        frames_wf(fs),
        0 <= k <= fs.len(),
    ensures
        0 <= score_of(fs.subrange(0, k)) <= 30 * k,
    decreases k,
{
    if k > 0 {
        lemma_score_prefix_bound(fs, k - 1);
        lemma_frame_total_bound(fs, k - 1);
        assert(fs.subrange(0, k).drop_last() =~= fs.subrange(0, k - 1));
        assert(fs.subrange(0, k).last() == fs[k - 1]);
    }
}

/// Law: a game's score always lies between 0 and 300.
pub proof fn lemma_score_at_most_300(fs: Seq<FrameView>)
    requires
        frames_wf(fs),
    ensures
        0 <= score_of(fs) <= 300,
{
    lemma_score_prefix_bound(fs, fs.len() as int);
    assert(fs.subrange(0, fs.len() as int) =~= fs);
}

/// Recording an admissible roll preserves the engine invariant.
pub proof fn lemma_place_roll_wf(fs: Seq<FrameView>, pins: int)
    requires
        frames_wf(fs),
        !game_finished(fs),
        0 <= pins <= 10,
        roll_fits(fs, pins),
    ensures
        frames_wf(place_roll(fs, pins)),
{
    let gs = place_roll(fs, pins);
    if opens_new_frame(fs) {
        assert(fs.len() < 10) by {
            if fs.len() == 10 {
                assert(frame_complete(fs[9], true));
            }
        }
        let nf = FrameView { rolls: seq![pins], bonus: Seq::empty() };
        assert(nf.rolls.drop_last() =~= Seq::<int>::empty());
        assert(sum(Seq::<int>::empty()) == 0);
        assert(sum(nf.rolls) == sum(nf.rolls.drop_last()) + nf.rolls.last());
        assert(sum(nf.rolls) == pins);
        assert(frame_wf(nf, fs.len() == 9));
        assert forall|i: int| 0 <= i < gs.len() implies frame_wf(#[trigger] gs[i], i == 9) by {
            if i < fs.len() {
                assert(gs[i] == fs[i]);
            } else {
                assert(gs[i] == nf);
            }
        }
        assert forall|i: int| 0 <= i < gs.len() - 1 implies frame_complete(
            #[trigger] gs[i],
            i == 9,
        ) by {
            assert(gs[i] == fs[i]);
            if i == fs.len() - 1 {
                assert(frame_complete(fs.last(), fs.len() == 10));
            }
        }
    } else {
        let k = fs.len() - 1;
        let f = fs.last();
        let nf = FrameView { rolls: f.rolls.push(pins), bonus: f.bonus };
        lemma_sum_push(f.rolls, pins);
        assert(frame_wf(f, k == 9));
        assert(nf.rolls[0] == f.rolls[0]);
        if k == 9 {
            if nf.rolls.len() == 3 {
                // only a strike or spare in the first two rolls leaves the
                // tenth frame open for a third
                assert(f.rolls.len() == 2);
                assert(is_strike(f) || spare_start(f));
                assert(nf.rolls[1] == f.rolls[1]);
            }
        } else {
            assert(!is_strike(f) && f.rolls.len() == 1);
        }
        assert(frame_wf(nf, k == 9));
        assert forall|i: int| 0 <= i < gs.len() implies frame_wf(#[trigger] gs[i], i == 9) by {
            if i != k {
                assert(gs[i] == fs[i]);
            } else {
                assert(gs[i] == nf);
            }
        }
        assert forall|i: int| 0 <= i < gs.len() - 1 implies frame_complete(
            #[trigger] gs[i],
            i == 9,
        ) by {
            assert(gs[i] == fs[i]);
        }
    }
}

/// Granting a roll as a bonus preserves the engine invariant.
pub proof fn lemma_grant_bonus_wf(fs: Seq<FrameView>, pins: int)
    requires
        frames_wf(fs),
        0 <= pins <= 10,
    ensures
        frames_wf(grant_bonus(fs, pins)),
{
    let gs = grant_bonus(fs, pins);
    assert forall|i: int| 0 <= i < gs.len() implies frame_wf(#[trigger] gs[i], i == 9) by {
        assert(frame_wf(fs[i], i == 9));
        if i < fs.len() - 1 && !bonus_done(fs[i]) {
            assert(gs[i].rolls == fs[i].rolls);
            assert(gs[i].bonus == fs[i].bonus.push(pins));
            assert(forall|j: int|
                0 <= j < gs[i].bonus.len() ==> 0 <= #[trigger] gs[i].bonus[j] <= 10);
        } else {
            assert(gs[i] == fs[i]);
        }
    }
    assert forall|i: int| 0 <= i < gs.len() - 1 implies frame_complete(
        #[trigger] gs[i],
        i == 9,
    ) by {
        assert(frame_complete(fs[i], i == 9));
        assert(gs[i].rolls == fs[i].rolls);
    }
    if gs.len() > 0 {
        assert(gs.last() == fs.last());
    }
}

/// An accepted roll preserves the engine invariant.
pub proof fn lemma_next_frames_wf(fs: Seq<FrameView>, pins: int)
    requires
        frames_wf(fs),
        !game_finished(fs),
        0 <= pins <= 10,
        roll_fits(fs, pins),
    ensures
        frames_wf(next_frames(fs, pins)),
{
    lemma_place_roll_wf(fs, pins);
    lemma_grant_bonus_wf(place_roll(fs, pins), pins);
}

/// Law: a game of exactly one roll of `pins` scores exactly `pins`.
pub proof fn lemma_single_roll_scores_pins(pins: int)
    requires
        0 <= pins <= 10,
    ensures
        score_of(next_frames(Seq::empty(), pins)) == pins,
{
    let one = FrameView { rolls: seq![pins], bonus: Seq::empty() };
    let fs = next_frames(Seq::empty(), pins);
    assert(fs =~~= seq![one]);
    assert(fs.drop_last() =~= Seq::<FrameView>::empty());
    assert(one.rolls.drop_last() =~= Seq::<int>::empty());
    assert(sum(Seq::<int>::empty()) == 0);
    assert(sum(one.rolls) == sum(one.rolls.drop_last()) + one.rolls.last());
    assert(frame_total(one) == pins);
    assert(score_of(Seq::<FrameView>::empty()) == 0);
    assert(score_of(fs) == score_of(fs.drop_last()) + frame_total(fs.last()));
}

/// Law: the engine is deterministic. From equal frame histories the same
/// roll is judged the same way and leads to equal frame histories and equal
/// scores; replaying a roll sequence therefore always reproduces the same game.
pub proof fn lemma_roll_deterministic(a: Seq<FrameView>, b: Seq<FrameView>, pins: int)
    requires
        a == b,
    ensures
        game_finished(a) == game_finished(b),
        roll_fits(a, pins) == roll_fits(b, pins),
        next_frames(a, pins) == next_frames(b, pins),
        score_of(a) == score_of(b),
{
}

} // verus!
