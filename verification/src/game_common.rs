//! What the parts of the game share.

pub use crate::game::players::GamePlayer;
pub use crate::game::players::GamePlayers;
