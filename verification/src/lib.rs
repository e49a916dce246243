//! Codec for the RTCP Source Description (SDES) packet body of RFC 3550, section 6.5.
//!
//! [`rtcp::source_description`] holds the packet, chunk and item types with their encoder and
//! decoder; [`rtcp::wire`] states the byte layout they implement and [`rtcp::laws`] what
//! follows from it; [`octets`] is the bounds-checked cursor they read from and write to.

pub mod octets;
pub mod rtcp;
