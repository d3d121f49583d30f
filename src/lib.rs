//! A lottery contract: entrants are collected into a canonically ordered set,
//! and a draw picks one of them from the block timestamp, then starts a new round.

pub mod order;
pub mod address;
pub mod participants;
pub mod lottery;

pub use address::{Address, AddressType};
pub use lottery::{ContractContext, LotteryState, enter, initialize, pick_winner};
pub use participants::ParticipantSet;
