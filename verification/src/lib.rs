//! Line-oriented parsers for game-asset sources: scripts, messages and
//! trainer rosters.
//!
//! Each parser takes the whole text of one source and gives back either
//! every record in it or the first error. The contract of each parser
//! equates its result with a model over `Seq<char>`: [`script::scripts_of`],
//! [`message::messages_of`] and [`trainer::party::roster_of`].

pub mod alias;
pub mod error;
pub mod label;
pub mod message;
pub mod number;
pub mod script;
pub mod text;
pub mod tiny;
pub mod trainer;
pub mod world;

pub use error::Error;
pub use message::{parse_message_script, Message};
pub use number::NumError;
pub use script::{parse, Command, Script};
pub use trainer::party::{parse_parties, TrainerPokemon};
pub use trainer::roster::Roster;
pub use trainer::TrainerError;
