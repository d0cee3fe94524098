//! Values and roundings of kernel interfaces.

use vstd::prelude::*;

verus! {

/// `n` rounded up to a multiple of `unit`.
pub open spec fn rounded_up(n: int, unit: int) -> int {
    (n + unit - 1) / unit * unit
}

/// What is rounded up is a multiple, no less than the number, and less than a unit above it.
pub proof fn law_rounded_up(n: int, unit: int)
    requires
        0 <= n,
        0 < unit,
    ensures
        rounded_up(n, unit) % unit == 0,
        n <= rounded_up(n, unit) < n + unit,
{
    let q: int = (n + unit - 1) / unit;
    vstd::arithmetic::div_mod::lemma_fundamental_div_mod(n + unit - 1, unit);
    vstd::arithmetic::div_mod::lemma_mod_multiples_basic(q, unit);
    vstd::arithmetic::mul::lemma_mul_is_commutative(q, unit);
    assert(0 <= (n + unit - 1) % unit < unit) by {
        vstd::arithmetic::div_mod::lemma_mod_bound(n + unit - 1, unit);
    }
}

/// The length of a netlink message or attribute with its padding to four bytes.
pub open spec fn nl_aligned(n: int) -> int {
    (n + 3) / 4 * 4
}

/// `NLMSG_ALIGN`: the length of a netlink message or attribute with its padding.
pub fn nl_align(n: usize) -> (r: usize)
    requires
        n <= usize::MAX - 3,
    ensures
        r == nl_aligned(n as int),
        r == rounded_up(n as int, 4),
{
    (n + 3) / 4 * 4
}

/// `BPF_WORDALIGN`: the length of a captured record with its padding, to the platform's alignment.
pub fn bpf_wordalign(x: usize, align: usize) -> (r: usize)
    requires
        0 < align,
        x + align <= usize::MAX,
    ensures
        r == rounded_up(x as int, align as int),
{
    proof {
        law_rounded_up(x as int, align as int);
    }
    (x + (align - 1)) / align * align
}

/// `_IOWR('i', 73, in6_ifreq)`: the request code for the flags of an IPv6 address, derived from the
/// size of the request structure.
pub fn siocgifaflag_in6(size: u32) -> (r: u32)
    ensures
        r == 0xc000_6949u32 + (size % 0x2000) * 0x1_0000,
{
    0xc000_6949 + (size % 0x2000) * 0x1_0000
}

} // verus!
