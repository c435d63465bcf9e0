//! The runtime core of a serial debugger: a reference-counted pool of open
//! devices, a streaming parser for bracketed commands, a cooperative
//! scheduler of periodic tasks, and the adapter that pumps a device through
//! the parser.

pub mod command;
pub mod device;
pub mod drive;
pub mod err;
pub mod project;
