//! The text forms of IPv6 addresses.

use vstd::prelude::*;

use crate::net;
use crate::net::ip::{IpAddr, Ipv6Addr};
use crate::number;
use crate::text;

verus! {

/// How many groups of zero stand at `i` and right behind it.
pub open spec fn zeros_at(g: Seq<u16>, i: int) -> nat
    decreases g.len() - i,
{
    if 0 <= i < g.len() && g[i] == 0 {
        1 + zeros_at(g, i + 1)
    } else {
        0
    }
}

/// The longest run of zeros among those that begin in the first `n` groups, the first of equals, as
/// its start and length.
pub open spec fn longest_zeros(g: Seq<u16>, n: nat) -> (int, nat)
    decreases n,
{
    if n == 0 {
        (0, 0)
    } else {
        let best = longest_zeros(g, (n - 1) as nat);
        let len = zeros_at(g, n - 1);
        if len > best.1 {
            (n - 1, len)
        } else {
            best
        }
    }
}

/// Groups in hexadecimal with colons between.
pub open spec fn hex_groups(g: Seq<u16>) -> Seq<char>
    decreases g.len(),
{
    if g.len() == 0 {
        Seq::empty()
    } else if g.len() == 1 {
        number::hexadecimal(g[0] as nat)
    } else {
        hex_groups(g.drop_last()) + seq![':'] + number::hexadecimal(g.last() as nat)
    }
}

impl Ipv6Addr {
    /// The address in hexadecimal groups, the first longest run of two or more zeros as `::`; a
    /// v4-mapped one as `::ffff:` and the IPv4 address.
    pub open spec fn text(self) -> Seq<char> {
        match net::mapped(self) {
            Some(v4) => "::ffff:"@ + v4.text(),
            None => {
                let g = self.groups();
                let (start, len) = longest_zeros(g, 8);
                if len > 1 {
                    hex_groups(g.take(start)) + seq![':', ':'] + hex_groups(g.skip(start + len))
                } else {
                    hex_groups(g)
                }
            },
        }
    }

    /// Append the text.
    pub fn push_text(&self, out: &mut Vec<char>)
        ensures
            final(out)@ == old(out)@ + self.text(),
    {
        match net::to_ipv4_mapped(*self) {
            Some(v4) => {
                text::push_str(out, "::ffff:");
                v4.push_text(out);
                assert(out@ =~= old(out)@ + self.text());
            },
            None => {
                let mut g: Vec<u16> = Vec::new();
                g.push(self.s0);
                g.push(self.s1);
                g.push(self.s2);
                g.push(self.s3);
                g.push(self.s4);
                g.push(self.s5);
                g.push(self.s6);
                g.push(self.s7);
                assert(g@ =~= self.groups());
                let (start, len) = find_zeros(&g);
                if len > 1 {
                    push_groups(out, &g, 0, start);
                    out.push(':');
                    out.push(':');
                    push_groups(out, &g, start + len, 8);
                    assert(g@.subrange(0, start as int) =~= g@.take(start as int));
                    assert(g@.subrange(start + len, 8) =~= g@.skip(start + len));
                } else {
                    push_groups(out, &g, 0, 8);
                    assert(g@.subrange(0, 8) =~= g@);
                }
                assert(out@ =~= old(out)@ + self.text());
            },
        }
    }
}

impl IpAddr {
    /// The text of the address in its family.
    pub open spec fn text(self) -> Seq<char> {
        match self {
            IpAddr::V4(v4) => v4.text(),
            IpAddr::V6(v6) => v6.text(),
        }
    }

    /// Append the text.
    pub fn push_text(&self, out: &mut Vec<char>)
        ensures
            final(out)@ == old(out)@ + self.text(),
    {
        match self {
            IpAddr::V4(v4) => v4.push_text(out),
            IpAddr::V6(v6) => v6.push_text(out),
        }
    }
}

proof fn lemma_zeros_at(g: Seq<u16>, i: int, n: nat)
    requires
        0 <= i,
        i + n <= g.len(),
        forall|j: int| i <= j < i + n ==> #[trigger] g[j] == 0,
        i + n < g.len() ==> g[i + n] != 0,
    ensures
        zeros_at(g, i) == n,
    decreases n,
{
    if n > 0 {
        assert(g[i] == 0);
        lemma_zeros_at(g, i + 1, (n - 1) as nat);
    }
}

/// See [`longest_zeros`].
fn find_zeros(g: &Vec<u16>) -> (r: (usize, usize))
    requires
        g@.len() == 8,
    ensures
        r.0 as int == longest_zeros(g@, 8).0,
        r.1 as nat == longest_zeros(g@, 8).1,
        r.0 + r.1 <= 8,
{
    let mut start: usize = 0;
    let mut len: usize = 0;
    let mut i: usize = 0;
    while i < 8
        invariant
            i <= 8,
            g@.len() == 8,
            start as int == longest_zeros(g@, i as nat).0,
            len as nat == longest_zeros(g@, i as nat).1,
            start + len <= 8,
        decreases 8 - i,
    {
        let mut n: usize = 0;
        while i + n < 8 && g[i + n] == 0
            invariant
                i + n <= 8,
                g@.len() == 8,
                forall|j: int| i <= j < i + n ==> #[trigger] g@[j] == 0,
            decreases 8 - n,
        {
            n += 1;
        }
        proof {
            lemma_zeros_at(g@, i as int, n as nat);
        }
        if n > len {
            start = i;
            len = n;
        }
        i += 1;
    }
    (start, len)
}

/// Append the groups from `from` to `to`.
fn push_groups(out: &mut Vec<char>, g: &Vec<u16>, from: usize, to: usize)
    requires
        from <= to <= g@.len(),
    ensures
        final(out)@ == old(out)@ + hex_groups(g@.subrange(from as int, to as int)),
{
    let mut i: usize = from;
    while i < to
        invariant
            from <= i <= to <= g@.len(),
            out@ == old(out)@ + hex_groups(g@.subrange(from as int, i as int)),
        decreases to - i,
    {
        let ghost run = g@.subrange(from as int, i as int);
        let ghost next = g@.subrange(from as int, i + 1);
        if i > from {
            out.push(':');
        }
        number::push_written(out, g[i] as u64, 16);
        assert(next.drop_last() =~= run);
        assert(next.last() == g@[i as int]);
        assert(out@ =~= old(out)@ + hex_groups(next));
        i += 1;
    }
    assert(out@ =~= old(out)@ + hex_groups(g@.subrange(from as int, to as int)));
}

} // verus!
