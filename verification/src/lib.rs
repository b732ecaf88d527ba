//! A verified scoring engine for ten-pin bowling.
//!
//! The engine accepts one roll at a time, validates it against the state of
//! the game, groups rolls into frames, propagates strike and spare bonuses to
//! earlier frames, and keeps a running total. The `rules` module holds the
//! mathematical model the contracts speak of; the `engine` module holds the
//! executable types proved against that model.

mod engine;
mod rules;

pub use engine::Bowling;
pub use engine::BowlingError;
pub use engine::TenPinBowling;
pub use engine::is_game_finished_err;
pub use engine::is_invalid_frame_err;
pub use engine::is_invalid_roll_err;
pub use engine::roll_outcome;
pub use rules::FrameView;
pub use rules::bonus_done;
pub use rules::bonus_quota;
pub use rules::frame_bounds;
pub use rules::frame_complete;
pub use rules::frame_limit;
pub use rules::frame_total;
pub use rules::frame_wf;
pub use rules::frames_wf;
pub use rules::game_finished;
pub use rules::grant_bonus;
pub use rules::is_spare;
pub use rules::is_strike;
pub use rules::lemma_roll_deterministic;
pub use rules::lemma_score_at_most_300;
pub use rules::lemma_single_roll_scores_pins;
pub use rules::next_frames;
pub use rules::opens_new_frame;
pub use rules::place_roll;
pub use rules::roll_fits;
pub use rules::score_of;
pub use rules::spare_start;
pub use rules::sum;
