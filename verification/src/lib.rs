//! An in-memory directory of people grouped by department, driven by
//! one-line text commands.
//!
//! * [`order`]: the order in which names are listed.
//! * [`sorting`]: sorting lists of names into that order.
//! * [`words`]: splitting a line into words.
//! * [`command`]: commands, and reading a line as one.
//! * [`directory`]: the directory as a map, and what holds of it.
//! * [`company`]: the directory as it is kept in memory.
//! * [`session`]: carrying out commands, and what is said in answer.

pub mod command;
pub mod company;
pub mod directory;
pub mod order;
pub mod session;
pub mod sorting;
pub mod words;

pub use command::{Add, Operation, Retrieve};
pub use company::Company;
pub use session::Response;
