//! Copies media files from a card into session folders and keeps a record of
//! what has been copied, so that an interrupted transfer can be taken up again.
//!
//! The modules hold the decisions of such a transfer; reading and writing
//! files is left to the caller, who carries out each action the library names.

pub mod metadata;
pub mod paths;
pub mod scanner;
pub mod session;
pub mod state;
pub mod text;
pub mod timestamp;
pub mod transfer;
