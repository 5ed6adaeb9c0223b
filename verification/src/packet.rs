//! Packets to send.

use crate::outside::contents;
use vstd::prelude::*;

verus! {

/// A packet for a connection.
#[derive(Debug)]
pub struct Packet {
    pub to: u128,
    pub data: bytes::Bytes,
}

/// What packets say, and to whom.
pub open spec fn sent(packets: Seq<Packet>) -> Seq<(u128, Seq<u8>)> {
    Seq::new(packets.len(), |i: int| (packets[i].to, contents(packets[i].data)))
}

/// What a packet says, and to whom, if there is one.
pub open spec fn packet_view(p: Option<Packet>) -> Option<(u128, Seq<u8>)> {
    match p {
        Some(p) => Some((p.to, contents(p.data))),
        None => None,
    }
}

} // verus!
