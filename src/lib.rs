//! The protocol engine of a terminal front end to a debugger that speaks a line-oriented
//! machine interface: the value model, the grammar of output lines, the text of commands,
//! the state shared by the output reader and the command sender, and the parser of the
//! window layout description.

pub mod command;
pub mod grammar;
pub mod layout;
pub mod record;
pub mod round_trip;
pub mod session;
pub mod text;
pub mod value;
