pub mod card;
pub mod codec;
pub mod deck;
pub mod frame;
pub mod hand;
pub mod play;
pub mod players;
pub mod round;
pub mod run;
pub mod show;
pub mod turn;

pub use card::{Card, Suit};
pub use deck::Deck;
pub use codec::{encode_frame, parse_frame, take_record, FrameError};
pub use frame::Frame;
pub use hand::Hand;
pub use play::score_play;
pub use players::{Player, Players};
pub use round::RoundError;
pub use run::is_run;
pub use turn::{PlayError, PlayOutcome, PlayState};
