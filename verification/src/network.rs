//! A CIDR network: a base value whose host bits are zero, and a prefix length.

use vstd::prelude::*;
use vstd::arithmetic::power2::{
    lemma2_to64, lemma2_to64_rest, lemma_pow2_adds, lemma_pow2_pos,
    lemma_pow2_strictly_increases, lemma_pow2_unfold, pow2,
};
use vstd::bits::lemma_usize_shl_is_mul;
use crate::address::IPv6Address;
use crate::error::Ipv6Error;
use crate::literal::{literal_value, parse_literal};
use vstd::string::*;
use crate::format::compressed_text;
use crate::text::{chars_of, decimal_string, decimal_text, find_char, first_pos};

verus! {

/// The largest `prefixlen_diff` that `subnets` enumerates: 2^20 networks.
pub const MAX_SUBNET_DIFF: u8 = 20;

/// The value whose top `p` bits are set and whose other bits are zero.
pub open spec fn netmask_of(p: u8) -> u128 {
    if p == 0 {
        0
    } else {
        !0u128 << ((128 - p) as u128)
    }
}

/// The complement of the netmask: the low `128 - p` bits set.
pub open spec fn hostmask_of(p: u8) -> u128 {
    !netmask_of(p)
}

/// Every character of `t` is a decimal digit.
pub open spec fn all_decimal(t: Seq<char>) -> bool {
    forall|i: int| 0 <= i < t.len() ==> '0' <= #[trigger] t[i] <= '9'
}

/// The number that the decimal digits `t` write.
pub open spec fn decimal_value(t: Seq<char>) -> int
    decreases t.len(),
{
    if t.len() == 0 {
        0
    } else {
        10 * decimal_value(t.drop_last()) + (t.last() as int - '0' as int)
    }
}

/// The prefix length that `t` writes: one or more decimal digits, after an
/// optional `+`, with a value of at most 128.
pub open spec fn prefix_of_text(t: Seq<char>) -> Option<u8> {
    let d = if t.len() > 0 && t[0] == '+' {
        t.subrange(1, t.len() as int)
    } else {
        t
    };
    if d.len() >= 1 && all_decimal(d) && decimal_value(d) <= 128 {
        Some(decimal_value(d) as u8)
    } else {
        None
    }
}

/// What a network text writes: the base value, masked down to the prefix,
/// and the prefix length; or the reason why it writes none.
pub open spec fn parse_network(t: Seq<char>) -> Result<(u128, u8), Ipv6Error> {
    let s = first_pos(t, '/');
    if s >= t.len() {
        Err(Ipv6Error::InvalidNetwork)
    } else {
        match prefix_of_text(t.subrange(s + 1, t.len() as int)) {
            None => Err(Ipv6Error::InvalidPrefix),
            Some(p) => match literal_value(t.subrange(0, s)) {
                None => Err(Ipv6Error::InvalidAddress),
                Some(v) => Ok((v & netmask_of(p), p)),
            },
        }
    }
}

/// A network in CIDR notation: the shortened form of the base, a `/`, and
/// the prefix length in decimal digits.
pub open spec fn network_text(base: u128, p: u8) -> Seq<char> {
    compressed_text(base) + seq!['/'] + decimal_text(p as nat)
}

/// The netmask for a prefix length.
pub fn prefix_to_mask(prefix_len: u8) -> (m: u128)
    requires
        prefix_len <= 128,
    ensures
        m == netmask_of(prefix_len),
{
    if prefix_len == 0 {
        0
    } else {
        let h: u128 = (128 - prefix_len) as u128;
        !0u128 << h
    }
}

/// The hostmask for a prefix length.
pub fn prefix_to_host_mask(prefix_len: u8) -> (m: u128)
    requires
        prefix_len <= 128,
    ensures
        m == hostmask_of(prefix_len),
{
    !prefix_to_mask(prefix_len)
}

/// Reads the prefix length `cs[lo..hi]`.
pub fn parse_prefix(cs: &Vec<char>, lo: usize, hi: usize) -> (r: Option<u8>)
    requires
        lo <= hi <= cs@.len(),
    ensures
        r == prefix_of_text(cs@.subrange(lo as int, hi as int)),
        r matches Some(p) ==> p <= 128,
{
    let ghost t = cs@.subrange(lo as int, hi as int);
    let start: usize = if lo < hi && cs[lo] == '+' {
        lo + 1
    } else {
        lo
    };
    let ghost d = cs@.subrange(start as int, hi as int);
    proof {
        if lo < hi {
            assert(t[0] == cs@[lo as int]);
        }
        if start > lo {
            assert(t.subrange(1, t.len() as int) =~= d);
        } else {
            assert(t =~= d);
        }
    }
    if start >= hi {
        return None;
    }
    let mut acc: u32 = 0;
    let mut i: usize = start;
    while i < hi
        invariant
            start <= i <= hi <= cs@.len(),
            d == cs@.subrange(start as int, hi as int),
            prefix_of_text(cs@.subrange(lo as int, hi as int)) == (if d.len() >= 1 && all_decimal(d)
                && decimal_value(d) <= 128 {
                Some(decimal_value(d) as u8)
            } else {
                None
            }),
            all_decimal(d.take(i - start)),
            acc <= 129,
            acc <= 128 ==> acc == decimal_value(d.take(i - start)),
            acc > 128 ==> decimal_value(d.take(i - start)) > 128,
        decreases hi - i,
    {
        let c: char = cs[i];
        let ghost t0 = d.take(i - start);
        let ghost t1 = d.take(i - start + 1);
        proof {
            assert(d[i - start] == c);
            assert(t1.drop_last() =~= t0);
            assert(t1.last() == c);
        }
        if !('0' <= c && c <= '9') {
            assert(!('0' <= d[i - start] <= '9'));
            assert(!all_decimal(d));
            return None;
        }
        let digit: u32 = (c as u32) - ('0' as u32);
        acc = acc * 10 + digit;
        if acc > 128 {
            acc = 129;
        }
        proof {
            assert forall|k: int| 0 <= k < t1.len() implies '0' <= #[trigger] t1[k] <= '9' by {
                if k < t0.len() {
                    assert(t1[k] == t0[k]);
                }
            }
        }
        i += 1;
    }
    assert(d.take(hi - start) =~= d);
    if acc <= 128 {
        Some(acc as u8)
    } else {
        None
    }
}

/// `1 << h` is two to the power `h`.
pub proof fn lemma_shl_one(h: u128)
    requires
        h < 128,
    ensures
        (1u128 << h) == pow2(h as nat),
    decreases h,
{
    if h == 0 {
        assert(1u128 << 0u128 == 1) by (bit_vector);
        lemma2_to64();
    } else {
        let g: u128 = (h - 1) as u128;
        lemma_shl_one(g);
        assert((1u128 << h) == 2 * (1u128 << g)) by (bit_vector)
            requires
                0 < h < 128,
                g == h - 1,
        ;
        lemma_pow2_unfold(h as nat);
    }
}

/// The hostmask of prefix length `p` is `2^(128 - p) - 1`.
pub proof fn lemma_hostmask_value(p: u8)
    requires
        p <= 128,
    ensures
        hostmask_of(p) == pow2((128 - p) as nat) - 1,
{
    if p == 0 {
        assert(!0u128 == 0xffff_ffff_ffff_ffff_ffff_ffff_ffff_ffff) by (bit_vector);
        lemma2_to64_rest();
        lemma_pow2_adds(64, 64);
        assert(pow2(128) == 0x1_0000_0000_0000_0000 * 0x1_0000_0000_0000_0000);
    } else {
        let h: u128 = (128 - p) as u128;
        lemma_shl_one(h);
        assert(!(!0u128 << h) == (1u128 << h) - 1) by (bit_vector)
            requires
                h < 128,
        ;
    }
}

/// A base that is aligned to a prefix is aligned to every longer prefix.
pub proof fn lemma_aligned_longer(base: u128, p: u8, q: u8)
    requires
        p <= q <= 128,
        base & hostmask_of(p) == 0,
    ensures
        base & hostmask_of(q) == 0,
{
    if p == 0 {
        assert(base == 0) by (bit_vector)
            requires
                base & !0u128 == 0,
        ;
        let m = hostmask_of(q);
        assert(0u128 & m == 0) by (bit_vector);
    } else {
        let hp: u128 = (128 - p) as u128;
        let hq: u128 = (128 - q) as u128;
        assert(base & !(!0u128 << hq) == 0) by (bit_vector)
            requires
                base & !(!0u128 << hp) == 0,
                hq <= hp < 128,
        ;
    }
}

/// In a well-formed network the last address is the base plus `2^(128 - p) - 1`.
pub proof fn lemma_last_value(n: IPv6Network)
    requires
        n.wf(),
    ensures
        n.last_value() == n.base_value() + pow2((128 - n.prefix()) as nat) - 1,
        n.base_value() <= n.last_value(),
{
    let b = n.base_value();
    let m = hostmask_of(n.prefix());
    lemma_hostmask_value(n.prefix());
    assert(b | m == b + m) by (bit_vector)
        requires
            b & m == 0,
    ;
}

/// `v` divides `n` into networks whose prefix is longer by `d`: there are
/// `2^d` of them, in ascending order, each `2^(128 - p - d)` addresses after
/// the one before, the first at the base of `n`.
pub open spec fn is_division(n: IPv6Network, d: u8, v: Seq<IPv6Network>) -> bool {
    &&& n.prefix() + d <= 128
    &&& v.len() == pow2(d as nat)
    &&& forall|i: int|
        0 <= i < v.len() ==> {
            &&& (#[trigger] v[i]).wf()
            &&& v[i].prefix() == n.prefix() + d
            &&& v[i].base_value() == n.base_value() + i * pow2((128 - n.prefix() - d) as nat)
        }
}

/// An IPv6 network in CIDR notation.
#[derive(Clone, Copy, PartialEq, Eq, Hash, Debug)]
pub struct IPv6Network {
    base: u128,
    prefix_len: u8,
}

impl IPv6Network {
    /// The base value: the first address of the network.
    pub closed spec fn base_value(&self) -> u128 {
        self.base
    }

    /// The prefix length.
    pub closed spec fn prefix(&self) -> u8 {
        self.prefix_len
    }

    /// The prefix length is at most 128 and the host bits of the base are zero.
    pub open spec fn wf(&self) -> bool {
        self.prefix() <= 128 && self.base_value() & hostmask_of(self.prefix()) == 0
    }

    /// The last address of the network.
    pub open spec fn last_value(&self) -> u128 {
        self.base_value() | hostmask_of(self.prefix())
    }

    /// Whether the value `a` lies in the network.
    pub open spec fn holds(&self, a: u128) -> bool {
        a & netmask_of(self.prefix()) == self.base_value()
    }

    /// Whether the address ranges of the two networks meet.
    pub open spec fn meets(&self, other: &IPv6Network) -> bool {
        self.base_value() <= other.last_value() && other.base_value() <= self.last_value()
    }

    /// The network of `address` under `prefix_len`, with the host bits cleared.
    pub fn from_parts(address: u128, prefix_len: u8) -> (r: Result<IPv6Network, Ipv6Error>)
        ensures
            match r {
                Ok(n) => prefix_len <= 128 && n.wf() && n.prefix() == prefix_len && n.base_value()
                    == address & netmask_of(prefix_len),
                Err(e) => e == Ipv6Error::InvalidPrefix && prefix_len > 128,
            },
    {
        if prefix_len > 128 {
            return Err(Ipv6Error::InvalidPrefix);
        }
        let mask: u128 = prefix_to_mask(prefix_len);
        let base: u128 = address & mask;
        assert((address & mask) & !mask == 0) by (bit_vector);
        Ok(IPv6Network { base, prefix_len })
    }

    /// Reads the network that `cs` writes.
    pub fn from_chars(cs: &Vec<char>) -> (r: Result<IPv6Network, Ipv6Error>)
        ensures
            match r {
                Ok(n) => parse_network(cs@) == Ok::<(u128, u8), Ipv6Error>(
                    (n.base_value(), n.prefix()),
                ) && n.wf(),
                Err(e) => parse_network(cs@) == Err::<(u128, u8), Ipv6Error>(e),
            },
    {
        let s: usize = find_char(cs, '/');
        let n: usize = cs.len();
        if s >= n {
            return Err(Ipv6Error::InvalidNetwork);
        }
        let prefix_len: u8 = match parse_prefix(cs, s + 1, n) {
            Some(p) => p,
            None => {
                return Err(Ipv6Error::InvalidPrefix);
            },
        };
        let address: u128 = match parse_literal(cs, 0, s) {
            Some(v) => v,
            None => {
                return Err(Ipv6Error::InvalidAddress);
            },
        };
        let ghost t = cs@;
        assert(prefix_of_text(t.subrange(s + 1, t.len() as int)) == Some(prefix_len));
        assert(literal_value(t.subrange(0, s as int)) == Some(address));
        assert(parse_network(t) == Ok::<(u128, u8), Ipv6Error>(
            (address & netmask_of(prefix_len), prefix_len),
        ));
        IPv6Network::from_parts(address, prefix_len)
    }

    /// Reads a network in CIDR notation, `address/prefix`.
    pub fn new(network: &str) -> (r: Result<IPv6Network, Ipv6Error>)
        ensures
            match r {
                Ok(n) => parse_network(network@) == Ok::<(u128, u8), Ipv6Error>(
                    (n.base_value(), n.prefix()),
                ) && n.wf(),
                Err(e) => parse_network(network@) == Err::<(u128, u8), Ipv6Error>(e),
            },
    {
        let cs: Vec<char> = chars_of(network);
        IPv6Network::from_chars(&cs)
    }

    /// The first address of the network.
    pub fn network_address(&self) -> (a: IPv6Address)
        ensures
            a.value() == self.base_value(),
            a.zone() is None,
    {
        IPv6Address::from_u128(self.base)
    }

    /// The last address of the network.
    pub fn broadcast_address(&self) -> (a: IPv6Address)
        requires
            self.wf(),
        ensures
            a.value() == self.last_value(),
            a.zone() is None,
    {
        let host_mask: u128 = prefix_to_host_mask(self.prefix_len);
        IPv6Address::from_u128(self.base | host_mask)
    }

    /// The netmask as an address.
    pub fn netmask(&self) -> (a: IPv6Address)
        requires
            self.wf(),
        ensures
            a.value() == netmask_of(self.prefix()),
            a.zone() is None,
    {
        IPv6Address::from_u128(prefix_to_mask(self.prefix_len))
    }

    /// The hostmask as an address.
    pub fn hostmask(&self) -> (a: IPv6Address)
        requires
            self.wf(),
        ensures
            a.value() == hostmask_of(self.prefix()),
            a.zone() is None,
    {
        IPv6Address::from_u128(prefix_to_host_mask(self.prefix_len))
    }

    /// The network in CIDR notation.
    pub fn to_text(&self) -> (out: String)
        ensures
            out@ == network_text(self.base_value(), self.prefix()),
    {
        let mut out: String = self.network_address().compressed();
        let digits: String = decimal_string(self.prefix_len as u128);
        out.append("/");
        out.append(digits.as_str());
        proof {
            reveal_strlit("/");
            assert("/"@ =~= seq!['/']);
        }
        out
    }

    /// The prefix length.
    pub fn prefix_len(&self) -> (p: u8)
        ensures
            p == self.prefix(),
    {
        self.prefix_len
    }

    /// The number of addresses in the network. A network of prefix length 0
    /// holds 2^128 addresses, one more than a `u128` can count.
    pub fn num_addresses(&self) -> (n: u128)
        requires
            self.wf(),
            self.prefix() >= 1,
        ensures
            n == pow2((128 - self.prefix()) as nat),
    {
        let h: u128 = (128 - self.prefix_len) as u128;
        proof {
            lemma_shl_one(h);
        }
        1u128 << h
    }

    /// Whether `address` lies in the network; its zone plays no part.
    pub fn contains(&self, address: &IPv6Address) -> (b: bool)
        requires
            self.wf(),
        ensures
            b == self.holds(address.value()),
    {
        let mask: u128 = prefix_to_mask(self.prefix_len);
        (address.to_u128() & mask) == self.base
    }

    /// Whether the two networks have an address in common.
    pub fn overlaps(&self, other: &IPv6Network) -> (b: bool)
        requires
            self.wf(),
            other.wf(),
        ensures
            b == self.meets(other),
    {
        let self_end: u128 = self.base | prefix_to_host_mask(self.prefix_len);
        let other_end: u128 = other.base | prefix_to_host_mask(other.prefix_len);
        self.base <= other_end && other.base <= self_end
    }

    /// The network that holds this one and whose prefix is shorter by `prefixlen_diff`.
    pub fn supernet(&self, prefixlen_diff: u8) -> (r: Result<IPv6Network, Ipv6Error>)
        requires
            self.wf(),
        ensures
            match r {
                Ok(s) => prefixlen_diff <= self.prefix() && s.wf() && s.prefix() == self.prefix()
                    - prefixlen_diff && s.base_value() == self.base_value() & netmask_of(
                    s.prefix(),
                ),
                Err(e) => e == Ipv6Error::DivisionError && prefixlen_diff > self.prefix(),
            },
    {
        if prefixlen_diff > self.prefix_len {
            return Err(Ipv6Error::DivisionError);
        }
        IPv6Network::from_parts(self.base, self.prefix_len - prefixlen_diff)
    }

    /// Divides the network into the `2^prefixlen_diff` networks whose prefix
    /// is longer by `prefixlen_diff`, in ascending order. At most
    /// `MAX_SUBNET_DIFF` bits can be added in one call.
    pub fn subnets(&self, prefixlen_diff: u8) -> (r: Result<Vec<IPv6Network>, Ipv6Error>)
        requires
            self.wf(),
        ensures
            match r {
                Ok(v) => prefixlen_diff <= MAX_SUBNET_DIFF && is_division(
                    *self,
                    prefixlen_diff,
                    v@,
                ),
                Err(e) => if self.prefix() + prefixlen_diff > 128 {
                    e == Ipv6Error::DivisionError
                } else {
                    e == Ipv6Error::NetworkTooLarge && prefixlen_diff > MAX_SUBNET_DIFF
                },
            },
    {
        if prefixlen_diff > 128 - self.prefix_len {
            return Err(Ipv6Error::DivisionError);
        }
        if prefixlen_diff > MAX_SUBNET_DIFF {
            return Err(Ipv6Error::NetworkTooLarge);
        }
        let new_prefix: u8 = self.prefix_len + prefixlen_diff;
        let mut out: Vec<IPv6Network> = Vec::new();
        if new_prefix == 0 {
            out.push(*self);
            proof {
                lemma2_to64();
            }
            return Ok(out);
        }
        let h: u128 = (128 - new_prefix) as u128;
        let size: u128 = 1u128 << h;
        proof {
            lemma2_to64();
            if prefixlen_diff < 20 {
                lemma_pow2_strictly_increases(prefixlen_diff as nat, 20);
            }
            lemma_pow2_pos(prefixlen_diff as nat);
            lemma_usize_shl_is_mul(1usize, prefixlen_diff as usize);
            lemma_shl_one(h);
            lemma_pow2_pos(h as nat);
            lemma_pow2_adds(prefixlen_diff as nat, h as nat);
            lemma_last_value(*self);
            lemma_aligned_longer(self.base, self.prefix_len, new_prefix);
        }
        let count: usize = 1usize << (prefixlen_diff as usize);
        let ghost mask: u128 = hostmask_of(new_prefix);
        assert(mask == !(!0u128 << h));
        let mut cur: u128 = self.base;
        let mut i: usize = 0;
        while i < count
            invariant
                i <= count,
                count == pow2(prefixlen_diff as nat),
                size == pow2(h as nat),
                size == 1u128 << h,
                size > 0,
                h < 128,
                h == 128 - new_prefix,
                new_prefix == self.prefix() + prefixlen_diff,
                mask == !(!0u128 << h),
                mask == hostmask_of(new_prefix),
                self.base_value() + count * size - 1 <= u128::MAX,
                i < count ==> cur == self.base_value() + i * size,
                i < count ==> cur & mask == 0,
                out@.len() == i,
                forall|k: int|
                    0 <= k < i ==> {
                        &&& (#[trigger] out@[k]).wf()
                        &&& out@[k].prefix() == new_prefix
                        &&& out@[k].base_value() == self.base_value() + k * size
                    },
            decreases count - i,
        {
            out.push(IPv6Network { base: cur, prefix_len: new_prefix });
            if i + 1 < count {
                proof {
                    assert((i + 1) * size <= (count - 1) * size) by (nonlinear_arith)
                        requires
                            i + 1 <= count - 1,
                            size > 0,
                    ;
                    assert((count - 1) * size == count * size - size) by (nonlinear_arith);
                    assert((i + 1) * size == i * size + size) by (nonlinear_arith);
                }
                let next: u128 = cur + size;
                assert(next & mask == 0) by (bit_vector)
                    requires
                        cur & mask == 0,
                        mask == !(!0u128 << h),
                        size == 1u128 << h,
                        h < 128,
                        next == cur + size,
                ;
                cur = next;
            }
            i += 1;
        }
        Ok(out)
    }
}

impl std::str::FromStr for IPv6Network {
    type Err = Ipv6Error;

    /// Reads a network as `IPv6Network::new` does.
    fn from_str(s: &str) -> (r: Result<IPv6Network, Ipv6Error>)
        ensures
            match r {
                Ok(n) => parse_network(s@) == Ok::<(u128, u8), Ipv6Error>(
                    (n.base_value(), n.prefix()),
                ) && n.wf(),
                Err(e) => parse_network(s@) == Err::<(u128, u8), Ipv6Error>(e),
            },
    {
        IPv6Network::new(s)
    }
}

} // verus!
