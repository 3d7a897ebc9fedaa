//! Twists of the 3^4 puzzle and a simple simulation of it.
pub mod piece_type;
pub mod sim;
pub mod twist;
pub mod twist_data;
pub mod twist_names;
pub mod twist_set;

pub use piece_type::{all_stickers, PieceType};
pub use sim::SimplePuzzleSim;
pub use twist::Twist;
pub use twist_data::{TwistData, TWIST_COUNT};
pub use twist_names::{parse_twists, twists_to_string};
pub use twist_set::TwistSet;
