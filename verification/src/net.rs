use vstd::prelude::*;

verus! {

/// An IP address as plain values: the four octets of IPv4, or the 128 bits
/// of IPv6 (first segment in the high bits).
#[derive(Debug, Clone, Copy, PartialEq, Eq, Hash, Structural)]
pub enum IpAddress {
    V4(u8, u8, u8, u8),
    V6(u128),
}

/// A UDP peer: address and port.
#[derive(Debug, Clone, Copy, PartialEq, Eq, Hash, Structural)]
pub struct Endpoint {
    pub ip: IpAddress,
    pub port: u16,
}

/// The private IPv4 ranges 10.0.0.0/8, 172.16.0.0/12 and 192.168.0.0/16;
/// no IPv6 address counts as private LAN.
pub open spec fn spec_private_lan(ip: IpAddress) -> bool {
    match ip {
        IpAddress::V4(a, b, _, _) => a == 10 || (a == 172 && 16 <= b <= 31) || (a == 192 && b == 168),
        IpAddress::V6(_) => false,
    }
}

/// 127.0.0.0/8, or `::1`.
pub open spec fn spec_loopback(ip: IpAddress) -> bool {
    match ip {
        IpAddress::V4(a, _, _, _) => a == 127,
        IpAddress::V6(bits) => bits == 1,
    }
}

/// Video is only taken from and sent to this machine or the private LAN.
pub open spec fn spec_lan_peer(ip: IpAddress) -> bool {
    spec_loopback(ip) || spec_private_lan(ip)
}

#[verifier::when_used_as_spec(spec_private_lan)]
pub fn private_lan(ip: IpAddress) -> (r: bool)
    ensures
        r == spec_private_lan(ip),
{
    match ip {
        IpAddress::V4(a, b, _, _) => a == 10 || (a == 172 && 16 <= b && b <= 31) || (a == 192 && b == 168),
        IpAddress::V6(_) => false,
    }
}

#[verifier::when_used_as_spec(spec_loopback)]
pub fn is_loopback(ip: IpAddress) -> (r: bool)
    ensures
        r == spec_loopback(ip),
{
    match ip {
        IpAddress::V4(a, _, _, _) => a == 127,
        IpAddress::V6(bits) => bits == 1,
    }
}

#[verifier::when_used_as_spec(spec_lan_peer)]
pub fn lan_peer(ip: IpAddress) -> (r: bool)
    ensures
        r == spec_lan_peer(ip),
{
    is_loopback(ip) || private_lan(ip)
}

/// Nanoseconds from `earlier` to `now` on a monotonic clock, zero when
/// `earlier` is later than `now`.
pub open spec fn elapsed(earlier: u64, now: u64) -> int {
    if now >= earlier { now - earlier } else { 0 }
}

pub fn elapsed_nanos(earlier: u64, now: u64) -> (r: u64)
    ensures
        r == elapsed(earlier, now),
{
    if now >= earlier { now - earlier } else { 0 }
}

} // verus!
