//! The PROXY protocol version 2 header that tells a backend the real client address.
use ppp::v2::{Addresses, Builder, Command, IPv4, IPv6, Protocol, Version};
use vstd::prelude::*;

use crate::wire::{be_bytes, SockAddr};

verus! {

/// Source and destination of a PROXY header, with IP addresses as integers.
#[derive(Clone, Copy, Debug, PartialEq, Eq, Structural)]
pub enum HeaderAddresses {
    IPv4 { src: u32, dst: u32, src_port: u16, dst_port: u16 },
    IPv6 { src: u128, dst: u128, src_port: u16, dst_port: u16 },
    /// Addresses of different families cannot be told.
    Unspecified,
}

/// The 128-bit value of a version 6 address.
pub open spec fn v6_value(hi: u64, lo: u64) -> u128 {
    (hi * 0x10000000000000000 + lo) as u128
}

pub open spec fn header_addresses_of(src: SockAddr, dst: SockAddr) -> HeaderAddresses {
    match (src, dst) {
        (SockAddr::V4 { ip: s, port: sp }, SockAddr::V4 { ip: d, port: dp }) => {
            HeaderAddresses::IPv4 { src: s, dst: d, src_port: sp, dst_port: dp }
        },
        (SockAddr::V6 { hi: sh, lo: sl, port: sp }, SockAddr::V6 { hi: dh, lo: dl, port: dp }) => {
            HeaderAddresses::IPv6 {
                src: v6_value(sh, sl),
                dst: v6_value(dh, dl),
                src_port: sp,
                dst_port: dp,
            }
        },
        _ => HeaderAddresses::Unspecified,
    }
}

/// The header's fixed signature.
pub open spec fn header_signature() -> Seq<u8> {
    seq![0x0Du8, 0x0A, 0x0D, 0x0A, 0x00, 0x0D, 0x0A, 0x51, 0x55, 0x49, 0x54, 0x0A]
}

/// A version 2 PROXY command header for datagrams: the signature, the version and command
/// byte, the family and protocol byte, the length of the address block, then the source and
/// destination addresses and the source and destination ports, all big-endian.
pub open spec fn header_bytes(a: HeaderAddresses) -> Seq<u8> {
    match a {
        HeaderAddresses::IPv4 { src, dst, src_port, dst_port } => header_signature() + seq![
            0x21u8,
            0x12,
        ] + be_bytes(12, 2) + be_bytes(src as nat, 4) + be_bytes(dst as nat, 4) + be_bytes(
            src_port as nat,
            2,
        ) + be_bytes(dst_port as nat, 2),
        HeaderAddresses::IPv6 { src, dst, src_port, dst_port } => header_signature() + seq![
            0x21u8,
            0x22,
        ] + be_bytes(36, 2) + be_bytes(src as nat, 16) + be_bytes(dst as nat, 16) + be_bytes(
            src_port as nat,
            2,
        ) + be_bytes(dst_port as nat, 2),
        HeaderAddresses::Unspecified => header_signature() + seq![0x21u8, 0x02] + be_bytes(0, 2),
    }
}

pub fn header_addresses(src: SockAddr, dst: SockAddr) -> (r: HeaderAddresses)
    ensures
        r == header_addresses_of(src, dst),
{
    match (src, dst) {
        (SockAddr::V4 { ip: s, port: sp }, SockAddr::V4 { ip: d, port: dp }) => {
            HeaderAddresses::IPv4 { src: s, dst: d, src_port: sp, dst_port: dp }
        },
        (SockAddr::V6 { hi: sh, lo: sl, port: sp }, SockAddr::V6 { hi: dh, lo: dl, port: dp }) => {
            HeaderAddresses::IPv6 {
                src: (sh as u128) * 0x10000000000000000 + sl as u128,
                dst: (dh as u128) * 0x10000000000000000 + dl as u128,
                src_port: sp,
                dst_port: dp,
            }
        },
        _ => HeaderAddresses::Unspecified,
    }
}

/// Relies on `ppp::v2::Builder::with_addresses` and `build`, with version 2, the proxy
/// command and the datagram protocol: the header laid out as `header_bytes` states. `build`
/// fails only when the address block exceeds 65535 bytes; here it holds at most 36.
#[verifier::external_body]
fn build_header(a: HeaderAddresses) -> (r: Option<Vec<u8>>)
    ensures
        r is Some,
        r matches Some(h) ==> h@ == header_bytes(a),
{
    let addresses = match a {
        HeaderAddresses::IPv4 { src, dst, src_port, dst_port } => {
            Addresses::IPv4(IPv4::new(src, dst, src_port, dst_port))
        },
        HeaderAddresses::IPv6 { src, dst, src_port, dst_port } => {
            Addresses::IPv6(IPv6::new(src, dst, src_port, dst_port))
        },
        HeaderAddresses::Unspecified => Addresses::Unspecified,
    };
    Builder::with_addresses(Version::Two | Command::Proxy, Protocol::Datagram, addresses).build().ok()
}

/// The PROXY header that announces `src` as the client and `dst` as the proxy.
pub fn proxy_header(src: SockAddr, dst: SockAddr) -> (r: Vec<u8>)
    ensures
        r@ == header_bytes(header_addresses_of(src, dst)),
{
    match build_header(header_addresses(src, dst)) {
        Some(h) => h,
        None => {
            proof {
                assert(false);
            }
            Vec::new()
        },
    }
}

} // verus!
