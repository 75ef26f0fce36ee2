//! Which addresses are globally reachable.

use crate::address::IpAddr;
use vstd::prelude::*;

verus! {

/// The IPv4 addresses that are not globally reachable: the special-purpose
/// blocks.
pub open spec fn v4_is_special(a: u8, b: u8, c: u8) -> bool {
    // "This network", 0.0.0.0/8.
    ||| a == 0
    // Private use, 10.0.0.0/8, 172.16.0.0/12 and 192.168.0.0/16.
    ||| a == 10
    ||| a == 172 && 16 <= b <= 31
    ||| a == 192 && b == 168
    // Shared address space, 100.64.0.0/10.
    ||| a == 100 && 64 <= b <= 127
    // Loopback, 127.0.0.0/8.
    ||| a == 127
    // Link local, 169.254.0.0/16.
    ||| a == 169 && b == 254
    // Protocol assignments, 192.0.0.0/24.
    ||| a == 192 && b == 0 && c == 0
    // Documentation, 192.0.2.0/24, 198.51.100.0/24 and 203.0.113.0/24.
    ||| a == 192 && b == 0 && c == 2
    ||| a == 198 && b == 51 && c == 100
    ||| a == 203 && b == 0 && c == 113
    // Benchmarking, 198.18.0.0/15.
    ||| a == 198 && 18 <= b <= 19
    // Reserved, with the broadcast address, 240.0.0.0/4.
    ||| a >= 240
}

/// The IPv6 unicast addresses that are not globally reachable.
pub open spec fn v6_is_special(segments: Seq<u16>) -> bool {
    // The unspecified address and loopback, `::` and `::1`.
    ||| segments.take(7) == crate::address::zeros(7) && segments[7] <= 1
    // Unique local, fc00::/7.
    ||| 0xfc00 <= segments[0] <= 0xfdff
    // Link local, fe80::/10.
    ||| 0xfe80 <= segments[0] <= 0xfebf
    // Documentation, 2001:db8::/32.
    ||| segments[0] == 0x2001 && segments[1] == 0xdb8
}

/// Whether an address is globally reachable: any IPv4 address outside the
/// special blocks, and 192.0.0.9 and 192.0.0.10; an IPv6 multicast address of
/// global scope, and any other IPv6 address outside the special blocks.
pub open spec fn globally_reachable(addr: IpAddr) -> bool {
    match addr {
        IpAddr::V4(a, b, c, d) => {
            ||| a == 192 && b == 0 && c == 0 && (d == 9 || d == 10)
            ||| !v4_is_special(a, b, c)
        },
        IpAddr::V6(first, ..) => if first >= 0xff00 {
            first % 16 == 14
        } else {
            !v6_is_special(addr.segments())
        },
    }
}

/// An IPv4 address is not globally reachable just if it is, as a number, in one
/// of the special-purpose ranges, of which 192.0.0.9 and 192.0.0.10 are
/// excepted.
pub proof fn special_ranges_are_not_reachable(a: u8, b: u8, c: u8, d: u8)
    ensures
        ({
            let n = ((a * 256 + b) * 256 + c) * 256 + d;
            !globally_reachable(IpAddr::V4(a, b, c, d)) <==> {
                ||| n < 0x0100_0000
                ||| 0x0a00_0000 <= n < 0x0b00_0000
                ||| 0x6440_0000 <= n < 0x6480_0000
                ||| 0x7f00_0000 <= n < 0x8000_0000
                ||| 0xa9fe_0000 <= n < 0xa9ff_0000
                ||| 0xac10_0000 <= n < 0xac20_0000
                ||| 0xc000_0000 <= n < 0xc000_0100 && n != 0xc000_0009 && n != 0xc000_000a
                ||| 0xc000_0200 <= n < 0xc000_0300
                ||| 0xc0a8_0000 <= n < 0xc0a9_0000
                ||| 0xc612_0000 <= n < 0xc614_0000
                ||| 0xc633_6400 <= n < 0xc633_6500
                ||| 0xcb00_7100 <= n < 0xcb00_7200
                ||| 0xf000_0000 <= n
            }
        }),
{
}

/// An IPv6 address is not globally reachable just if it is the unspecified or
/// the loopback address, unique local, link local, for documentation, or
/// multicast of another than global scope.
pub proof fn special_segments_are_not_reachable(addr: IpAddr)
    requires
        addr is V6,
    ensures
        addr matches IpAddr::V6(a, b, c, d, e, f, g, h) ==> (!globally_reachable(addr) <==> {
            ||| a == 0 && b == 0 && c == 0 && d == 0 && e == 0 && f == 0 && g == 0 && h <= 1
            ||| 0xfc00 <= a < 0xfe00
            ||| 0xfe80 <= a < 0xfec0
            ||| a == 0x2001 && b == 0x0db8
            ||| a >= 0xff00 && a % 16 != 0xe
        }),
{
    let s = addr.segments();
    let first = s.take(7);
    let zeros = crate::address::zeros(7);
    if s[0] == 0 && s[1] == 0 && s[2] == 0 && s[3] == 0 && s[4] == 0 && s[5] == 0 && s[6] == 0 {
        assert(first =~= zeros);
    }
    if first == zeros {
        assert(forall|i: int| 0 <= i < 7 ==> s[i] == first[i] && zeros[i] == 0);
    }
}

/// Calls `ip_rfc::global`: true for the globally reachable addresses, by the
/// blocks of `globally_reachable`.
#[verifier::external_body]
pub(crate) fn is_global(addr: IpAddr) -> (global: bool)
    ensures
        global == globally_reachable(addr),
{
    let ip = match addr {
        IpAddr::V4(a, b, c, d) => [a, b, c, d].into(),
        IpAddr::V6(a, b, c, d, e, f, g, h) => [a, b, c, d, e, f, g, h].into(),
    };
    ip_rfc::global(&ip)
}

} // verus!
