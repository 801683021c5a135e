//! A user-space TCP endpoint over IPv4: the Internet checksum, the IPv4 + TCP
//! segment codec, modulo-2^32 sequence arithmetic, the per-connection
//! control block with its retransmission, RTT and congestion-control engine,
//! and the demultiplexer that drives one control block per four-tuple.

pub mod checksum;
pub mod packet;
pub mod seqnum;
pub mod tcb;
pub mod tcp;
