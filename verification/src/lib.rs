//! Detection pipeline for a datagram feed of serialized ledger entries:
//! fragment reassembly, entry decoding, instruction scanning and
//! throughput statistics.

pub mod bytes;
pub mod reassembly;
pub mod entries;
pub mod decode;
pub mod scan;
pub mod stats;
pub mod pipeline;
