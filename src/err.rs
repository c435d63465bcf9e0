use vstd::prelude::*;

verus! {

/// The categories of failure that the runtime reports to its callers.
#[derive(Debug)]
pub enum ErrorKind {
    /// A transport operation failed: the kind of the failure and its description.
    IO(String, String),
    /// A serial port could not be opened or used.
    SerialError(String),
    /// No device manager is registered under the given sort.
    UnknownDeviceManager(String),
    /// A device configuration could not be understood.
    InvalidConfig,
    /// An event could not be delivered to its sink.
    ChannelSendError,
    /// A device of the given sort and name is already open.
    AlreadyOpen(String, String),
    /// No project is known under the requested id.
    NoSuchProject,
    /// A payload could not be serialized or deserialized.
    SerdeError,
}

/// A failure, with its category and a message for humans.
#[derive(Debug)]
pub struct Error {
    pub kind: ErrorKind,
    pub message: String,
}

impl Error {
    pub fn new(kind: ErrorKind, message: String) -> (r: Error)
        ensures
            r.kind == kind,
            r.message@ == message@,
    {
        Error { kind, message }
    }
}

} // verus!
