//! Peer addresses, held as the numbers they are.

use vstd::prelude::*;

verus! {

/// An IP address.
///
/// The number is the address read as one big-endian integer: for IPv4 the
/// first octet is the most significant byte, for IPv6 the first group is the
/// most significant sixteen bits. An IPv4 address and the IPv6 address that
/// embeds it are different addresses.
#[derive(Clone, Copy, Debug, PartialEq, Eq, Hash, Structural)]
pub enum Address {
    V4(u32),
    V6(u128),
}

impl Address {
    /// Whether this is a loopback address: `127.0.0.0/8` or `::1`.
    pub open spec fn loopback(self) -> bool {
        match self {
            Address::V4(number) => 0x7f00_0000 <= number <= 0x7fff_ffff,
            Address::V6(number) => number == 1,
        }
    }

    /// Whether this lies in the private range `192.168.0.0/16`.
    pub open spec fn private(self) -> bool {
        match self {
            Address::V4(number) => 0xc0a8_0000 <= number <= 0xc0a8_ffff,
            Address::V6(_) => false,
        }
    }

    /// Whether strikes against this address are ignored: local testing and
    /// trusted peers behind the same router must not ban themselves.
    pub open spec fn exempt(self) -> bool {
        self.loopback() || self.private()
    }

    /// Whether this is a loopback address.
    pub fn is_loopback(&self) -> (out: bool)
        ensures
            out == self.loopback(),
    {
        match *self {
            Address::V4(number) => 0x7f00_0000 <= number && number <= 0x7fff_ffff,
            Address::V6(number) => number == 1,
        }
    }

    /// Whether this lies in `192.168.0.0/16`.
    pub fn is_private(&self) -> (out: bool)
        ensures
            out == self.private(),
    {
        match *self {
            Address::V4(number) => 0xc0a8_0000 <= number && number <= 0xc0a8_ffff,
            Address::V6(_) => false,
        }
    }

    /// Whether strikes against this address are ignored.
    pub fn is_exempt(&self) -> (out: bool)
        ensures
            out == self.exempt(),
    {
        self.is_loopback() || self.is_private()
    }
}

} // verus!
