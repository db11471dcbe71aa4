use vstd::prelude::*;

verus! {

/// Everything the transport and the worker can report to the user interface.
#[derive(Debug, Clone, PartialEq, Eq)]
pub enum ArpchatError {
    /// The adapter opened a link that is not Ethernet.
    UnknownChannelType,
    /// Opening the interface failed; the text describes why.
    AdapterOpenFailed(String),
    /// No usable interface carries the given name.
    InvalidInterface(String),
    /// The chosen interface has no hardware address.
    NoMAC,
    /// Receiving a frame failed, most often for lack of privileges.
    CaptureFailed,
    /// The outbound frame buffer could not be built.
    FrameBuildFailed,
    /// Transmitting a frame failed.
    SendFailed,
    /// An interface was chosen a second time.
    InterfaceAlreadySet,
    /// The serialized packet needs more than 256 fragments.
    PacketTooLong,
}

} // verus!
