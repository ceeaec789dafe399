//! A verified slice of the SOE session-oriented datagram protocol: the RC4
//! keystream cipher that obfuscates payloads, the protocol's op-codes,
//! big-endian integer helpers, the variable-length length prefix and the
//! multi-packet container it frames, the 16-bit wire-sequence extension,
//! the reliable receive and send channels, the fragment splitter and
//! reassembler, and the session lifecycle supervisor.

pub mod binary_primitives;
pub mod data_utils;
pub mod fragment_reassembler;
pub mod multi_packet;
pub mod rc4;
pub mod receive_channel;
pub mod send_channel;
pub mod session_supervisor;
pub mod soe_op_code;
pub mod wire;
