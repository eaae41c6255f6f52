//! Membership of an address in a CIDR network, on the integer forms of the addresses.
use vstd::prelude::*;

verus! {

/// `ip` lies in `net/prefix`: the two IPv4 addresses agree on their first `prefix` bits
/// (every address for prefix 0, the exact address from 32 on).
pub open spec fn in_prefix_v4(ip: u32, net: u32, prefix: u8) -> bool {
    if prefix == 0 {
        true
    } else if prefix >= 32 {
        ip == net
    } else {
        ip >> ((32 - prefix) as u32) == net >> ((32 - prefix) as u32)
    }
}

/// `ip` lies in `net/prefix` for IPv6 addresses (exact from 128 on).
pub open spec fn in_prefix_v6(ip: u128, net: u128, prefix: u8) -> bool {
    if prefix == 0 {
        true
    } else if prefix >= 128 {
        ip == net
    } else {
        ip >> ((128 - prefix) as u128) == net >> ((128 - prefix) as u128)
    }
}

/// Whether the IPv4 address `ip` lies in the network `net/prefix`.
pub fn in_network_v4(ip: u32, net: u32, prefix: u8) -> (r: bool)
    ensures
        r == in_prefix_v4(ip, net, prefix),
{
    if prefix == 0 {
        true
    } else if prefix >= 32 {
        ip == net
    } else {
        let shift: u32 = (32 - prefix) as u32;
        ip >> shift == net >> shift
    }
}

/// Whether the IPv6 address `ip` lies in the network `net/prefix`.
pub fn in_network_v6(ip: u128, net: u128, prefix: u8) -> (r: bool)
    ensures
        r == in_prefix_v6(ip, net, prefix),
{
    if prefix == 0 {
        true
    } else if prefix >= 128 {
        ip == net
    } else {
        let shift: u128 = (128 - prefix) as u128;
        ip >> shift == net >> shift
    }
}

} // verus!
