//! A biased-coin streak game: flips pay out on consecutive heads, cash buys
//! upgrades on three tier ladders, and a run ends on the first streak of ten.
//! Money is counted in whole cents, the heads chance in percent, and the combo
//! base in tenths.

pub mod money;
pub mod reward;
pub mod sim;
pub mod track;

pub use money::{round_to_cent, MICROS_PER_CENT};
pub use reward::{combo_mult, reward, COMBO_SCALE, MAX_STREAK};
pub use sim::{flip, flip_outcome, Flip, SimError, SimResults, State, DRAW_SCALE, HISTO_LEN};
pub use track::{Tier, UpgradeTrack};
