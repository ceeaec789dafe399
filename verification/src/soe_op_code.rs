//! The packet op-codes of the SOE protocol. Every datagram begins with its
//! op-code as a big-endian 16-bit integer.

use vstd::prelude::*;
use crate::binary_primitives::u16_from_be;
use crate::binary_primitives::read_u16_be;

verus! {

/// Enumerates the packet op-codes used in the SOE protocol.
#[derive(Copy, Clone, Debug, Eq, PartialEq, Structural)]
pub enum SoeOpCode {
    /// Represents an invalid packet; not itself part of the wire protocol.
    Invalid,
    /// Requests the start of a session.
    SessionRequest,
    /// Confirms the start of a session and sets connection details.
    SessionResponse,
    /// Encapsulates two or more SOE protocol packets.
    MultiPacket,
    /// Indicates that a party is closing the session.
    Disconnect,
    /// Keeps a session alive when no data has been received for some time.
    Heartbeat,
    /// Requests network statistics.
    NetStatusRequest,
    /// Answers a network statistics request.
    NetStatusResponse,
    /// Transfers a small buffer of application data.
    ReliableData,
    /// Transfers a large buffer of application data in multiple fragments.
    ReliableDataFragment,
    /// Indicates that a data sequence was received out of order.
    OutOfOrder,
    /// Acknowledges that a data sequence has been received.
    Acknowledge,
    /// Indicates that the receiver has no session for the sender's address.
    UnknownSender,
    /// Requests that a session be remapped to another address.
    RemapConnection,
}

/// The wire value of each op-code.
pub open spec fn op_code_value(op: SoeOpCode) -> u16 {
    match op {
        SoeOpCode::Invalid => 0,
        SoeOpCode::SessionRequest => 0x01,
        SoeOpCode::SessionResponse => 0x02,
        SoeOpCode::MultiPacket => 0x03,
        SoeOpCode::Disconnect => 0x05,
        SoeOpCode::Heartbeat => 0x06,
        SoeOpCode::NetStatusRequest => 0x07,
        SoeOpCode::NetStatusResponse => 0x08,
        SoeOpCode::ReliableData => 0x09,
        SoeOpCode::ReliableDataFragment => 0x0D,
        SoeOpCode::OutOfOrder => 0x11,
        SoeOpCode::Acknowledge => 0x15,
        SoeOpCode::UnknownSender => 0x1D,
        SoeOpCode::RemapConnection => 0x1E,
    }
}

/// The op-code a wire value stands for; every unknown value maps to
/// `Invalid`.
pub open spec fn op_code_from_value(value: u16) -> SoeOpCode {
    if value == 0x01 {
        SoeOpCode::SessionRequest
    } else if value == 0x02 {
        SoeOpCode::SessionResponse
    } else if value == 0x03 {
        SoeOpCode::MultiPacket
    } else if value == 0x05 {
        SoeOpCode::Disconnect
    } else if value == 0x06 {
        SoeOpCode::Heartbeat
    } else if value == 0x07 {
        SoeOpCode::NetStatusRequest
    } else if value == 0x08 {
        SoeOpCode::NetStatusResponse
    } else if value == 0x09 {
        SoeOpCode::ReliableData
    } else if value == 0x0D {
        SoeOpCode::ReliableDataFragment
    } else if value == 0x11 {
        SoeOpCode::OutOfOrder
    } else if value == 0x15 {
        SoeOpCode::Acknowledge
    } else if value == 0x1D {
        SoeOpCode::UnknownSender
    } else if value == 0x1E {
        SoeOpCode::RemapConnection
    } else {
        SoeOpCode::Invalid
    }
}

impl SoeOpCode {
    /// The op-code as it appears on the wire.
    pub fn to_u16(self) -> (value: u16)
        ensures
            value == op_code_value(self),
    {
        match self {
            SoeOpCode::Invalid => 0,
            SoeOpCode::SessionRequest => 0x01,
            SoeOpCode::SessionResponse => 0x02,
            SoeOpCode::MultiPacket => 0x03,
            SoeOpCode::Disconnect => 0x05,
            SoeOpCode::Heartbeat => 0x06,
            SoeOpCode::NetStatusRequest => 0x07,
            SoeOpCode::NetStatusResponse => 0x08,
            SoeOpCode::ReliableData => 0x09,
            SoeOpCode::ReliableDataFragment => 0x0D,
            SoeOpCode::OutOfOrder => 0x11,
            SoeOpCode::Acknowledge => 0x15,
            SoeOpCode::UnknownSender => 0x1D,
            SoeOpCode::RemapConnection => 0x1E,
        }
    }

    /// Maps a wire value to its op-code; unknown values are `Invalid`.
    pub fn from_u16(value: u16) -> (op: SoeOpCode)
        ensures
            op == op_code_from_value(value),
    {
        if value == 0x01 {
            SoeOpCode::SessionRequest
        } else if value == 0x02 {
            SoeOpCode::SessionResponse
        } else if value == 0x03 {
            SoeOpCode::MultiPacket
        } else if value == 0x05 {
            SoeOpCode::Disconnect
        } else if value == 0x06 {
            SoeOpCode::Heartbeat
        } else if value == 0x07 {
            SoeOpCode::NetStatusRequest
        } else if value == 0x08 {
            SoeOpCode::NetStatusResponse
        } else if value == 0x09 {
            SoeOpCode::ReliableData
        } else if value == 0x0D {
            SoeOpCode::ReliableDataFragment
        } else if value == 0x11 {
            SoeOpCode::OutOfOrder
        } else if value == 0x15 {
            SoeOpCode::Acknowledge
        } else if value == 0x1D {
            SoeOpCode::UnknownSender
        } else if value == 0x1E {
            SoeOpCode::RemapConnection
        } else {
            SoeOpCode::Invalid
        }
    }
}

/// Reads the leading big-endian op-code of a datagram and dispatches it to a
/// packet variant; unknown codes dispatch to `Invalid`.
pub fn parse_op_code(buffer: &[u8]) -> (op: SoeOpCode)
    requires
        buffer@.len() >= 2,
    ensures
        op == op_code_from_value(u16_from_be(buffer@[0], buffer@[1]) as u16),
{
    let value = read_u16_be(buffer);
    SoeOpCode::from_u16(value)
}

/// Mapping an op-code to its wire value and back returns the same op-code.
pub proof fn lemma_op_code_round_trip(op: SoeOpCode)
    ensures
        op_code_from_value(op_code_value(op)) == op,
{
}

} // verus!
