//! SSDP wire constants.

pub mod dial;

use vstd::prelude::*;

use crate::net::ip::{Ipv4Addr, Ipv6Addr};

verus! {

pub const SSDP_PORT: u16 = 1900;

/// 239.255.255.250.
#[verifier::allow_in_spec]
pub fn ssdp_group_v4() -> (r: Ipv4Addr)
    returns
        (Ipv4Addr { a: 239, b: 255, c: 255, d: 250 }),
{
    Ipv4Addr { a: 239, b: 255, c: 255, d: 250 }
}

/// ff02::c.
#[verifier::allow_in_spec]
pub fn ssdp_group_v6_link_local() -> (r: Ipv6Addr)
    returns
        (Ipv6Addr { s0: 0xff02, s1: 0, s2: 0, s3: 0, s4: 0, s5: 0, s6: 0, s7: 0x0c }),
{
    Ipv6Addr { s0: 0xff02, s1: 0, s2: 0, s3: 0, s4: 0, s5: 0, s6: 0, s7: 0x0c }
}

/// ff05::c.
#[verifier::allow_in_spec]
pub fn ssdp_group_v6_site_local() -> (r: Ipv6Addr)
    returns
        (Ipv6Addr { s0: 0xff05, s1: 0, s2: 0, s3: 0, s4: 0, s5: 0, s6: 0, s7: 0x0c }),
{
    Ipv6Addr { s0: 0xff05, s1: 0, s2: 0, s3: 0, s4: 0, s5: 0, s6: 0, s7: 0x0c }
}

} // verus!
