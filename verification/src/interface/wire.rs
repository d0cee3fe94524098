//! Numbers in kernel messages, which are in the machine's byte order.

use vstd::prelude::*;

verus! {

/// The order of the bytes of a number.
#[derive(Clone, Copy, PartialEq, Eq, Structural, Debug)]
pub enum Order {
    Little,
    Big,
}

/// Two bytes as a number.
pub open spec fn pair(o: Order, a: u8, b: u8) -> u16 {
    match o {
        Order::Little => (b * 0x100 + a) as u16,
        Order::Big => (a * 0x100 + b) as u16,
    }
}

/// Four bytes as a number.
pub open spec fn quad(o: Order, a: u8, b: u8, c: u8, d: u8) -> u32 {
    match o {
        Order::Little => (d * 0x100_0000 + c * 0x1_0000 + b * 0x100 + a) as u32,
        Order::Big => (a * 0x100_0000 + b * 0x1_0000 + c * 0x100 + d) as u32,
    }
}

/// The number in the two bytes at `i`.
pub open spec fn u16_at(o: Order, s: Seq<u8>, i: int) -> Option<u16> {
    if 0 <= i && i + 2 <= s.len() {
        Some(pair(o, s[i], s[i + 1]))
    } else {
        None
    }
}

/// The number in the four bytes at `i`.
pub open spec fn u32_at(o: Order, s: Seq<u8>, i: int) -> Option<u32> {
    if 0 <= i && i + 4 <= s.len() {
        Some(quad(o, s[i], s[i + 1], s[i + 2], s[i + 3]))
    } else {
        None
    }
}

/// How many bytes are left from `at` on.
pub open spec fn left(s: Seq<u8>, at: int) -> nat {
    if at < s.len() {
        (s.len() - at) as nat
    } else {
        0
    }
}

/// The number of two's complement with those 32 bits.
pub open spec fn signed(n: u32) -> i32 {
    if n <= i32::MAX {
        n as i32
    } else {
        (n - 0x1_0000_0000) as i32
    }
}

/// The number in the two bytes at `off`; `None` if `buf` is too short.
pub fn read_u16(o: Order, buf: &[u8], off: usize) -> (r: Option<u16>)
    ensures
        r == u16_at(o, buf@, off as int),
{
    if buf.len() < 2 || off > buf.len() - 2 {
        return None;
    }
    let (a, b) = (buf[off], buf[off + 1]);
    Some(
        match o {
            Order::Little => b as u16 * 0x100 + a as u16,
            Order::Big => a as u16 * 0x100 + b as u16,
        },
    )
}

/// The number in the four bytes at `off`; `None` if `buf` is too short.
pub fn read_u32(o: Order, buf: &[u8], off: usize) -> (r: Option<u32>)
    ensures
        r == u32_at(o, buf@, off as int),
{
    if buf.len() < 4 || off > buf.len() - 4 {
        return None;
    }
    let (a, b, c, d) = (
        buf[off] as u32,
        buf[off + 1] as u32,
        buf[off + 2] as u32,
        buf[off + 3] as u32,
    );
    Some(
        match o {
            Order::Little => d * 0x100_0000 + c * 0x1_0000 + b * 0x100 + a,
            Order::Big => a * 0x100_0000 + b * 0x1_0000 + c * 0x100 + d,
        },
    )
}

/// See [`signed`].
pub fn to_signed(n: u32) -> (r: i32)
    ensures
        r == signed(n),
{
    if n <= i32::MAX as u32 {
        n as i32
    } else {
        (n as i64 - 0x1_0000_0000) as i32
    }
}

/// Append a number of two bytes.
pub fn push_u16(out: &mut Vec<u8>, o: Order, n: u16)
    ensures
        final(out)@ == old(out)@ + u16_bytes(o, n),
{
    let high: u8 = (n / 0x100) as u8;
    let low: u8 = (n % 0x100) as u8;
    match o {
        Order::Little => {
            out.push(low);
            out.push(high);
        },
        Order::Big => {
            out.push(high);
            out.push(low);
        },
    }
    assert(out@ =~= old(out)@ + u16_bytes(o, n));
}

/// The bytes of a number of two.
pub open spec fn u16_bytes(o: Order, n: u16) -> Seq<u8> {
    let high: u8 = (n / 0x100) as u8;
    let low: u8 = (n % 0x100) as u8;
    match o {
        Order::Little => seq![low, high],
        Order::Big => seq![high, low],
    }
}

/// The bytes of a number of four.
pub open spec fn u32_bytes(o: Order, n: u32) -> Seq<u8> {
    let high: u16 = (n / 0x1_0000) as u16;
    let low: u16 = (n % 0x1_0000) as u16;
    match o {
        Order::Little => u16_bytes(o, low) + u16_bytes(o, high),
        Order::Big => u16_bytes(o, high) + u16_bytes(o, low),
    }
}

/// Append a number of four bytes.
pub fn push_u32(out: &mut Vec<u8>, o: Order, n: u32)
    ensures
        final(out)@ == old(out)@ + u32_bytes(o, n),
{
    let high: u16 = (n / 0x1_0000) as u16;
    let low: u16 = (n % 0x1_0000) as u16;
    match o {
        Order::Little => {
            push_u16(out, o, low);
            push_u16(out, o, high);
        },
        Order::Big => {
            push_u16(out, o, high);
            push_u16(out, o, low);
        },
    }
    assert(out@ =~= old(out)@ + u32_bytes(o, n));
}

/// The bytes of a number are read back as the number.
pub proof fn law_numbers_read_back(o: Order, n: u32, m: u16)
    ensures
        u32_at(o, u32_bytes(o, n), 0) == Some(n),
        u16_at(o, u16_bytes(o, m), 0) == Some(m),
{
}

} // verus!
