//! Verified core of a unidirectional file/UDP transfer over a data diode:
//! the wire format, the receiver's reassembly and forward-error-correction
//! bookkeeping, the sender's packet planning, and their supporting helpers.

pub mod ascii;
pub mod batch_recovery;
pub mod decimal;
pub mod fec;
pub mod hashing;
pub mod proto;
pub mod receive;
pub mod send;
pub mod timefmt;
pub mod udp_forward;
