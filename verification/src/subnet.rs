//! A calculator that answers questions about one network in text form.

use vstd::prelude::*;
use vstd::arithmetic::power2::pow2;
use crate::address::{parse_address, IPv6Address};
use crate::error::Ipv6Error;
use crate::format::{compressed_text, exploded_text};
use crate::network::{
    hostmask_of, is_division, netmask_of, network_text, parse_network, IPv6Network,
    MAX_SUBNET_DIFF,
};
use crate::text::{decimal_string, decimal_text};
use vstd::string::*;

verus! {

/// The number of addresses under a prefix length, in decimal digits.
pub open spec fn count_text(p: u8) -> Seq<char> {
    if p == 0 {
        "340282366920938463463374607431768211456"@
    } else {
        decimal_text(pow2((128 - p) as nat))
    }
}

/// The least number of bits that tell `n` things apart: the least `b`
/// with `2^b >= n`.
pub open spec fn bits_needed(n: nat) -> nat
    decreases n,
{
    if n <= 1 {
        0
    } else {
        1 + bits_needed((n / 2 + n % 2) as nat)
    }
}

/// The base of subnet number `i` when the network at `base` with prefix
/// length `p` is divided by `d` more bits.
pub open spec fn subnet_base(base: u128, p: u8, d: nat, i: int) -> u128 {
    (base + i * pow2((128 - p - d) as nat)) as u128
}

/// A network, described in text.
#[derive(Debug, Clone)]
pub struct SubnetInfo {
    pub network: String,
    pub network_address: String,
    pub first_address: String,
    pub last_address: String,
    pub prefix_length: u8,
    pub num_addresses: String,
    pub netmask: String,
}

impl SubnetInfo {
    /// The record describes the network at `base` with prefix length `p`.
    pub open spec fn describes(&self, base: u128, p: u8) -> bool {
        &&& self.network@ == network_text(base, p)
        &&& self.network_address@ == compressed_text(base)
        &&& self.first_address@ == compressed_text(base)
        &&& self.last_address@ == compressed_text(base | hostmask_of(p))
        &&& self.prefix_length == p
        &&& self.num_addresses@ == count_text(p)
        &&& self.netmask@ == exploded_text(netmask_of(p))
    }

    /// Describes `net`.
    pub fn from_network(net: &IPv6Network) -> (info: SubnetInfo)
        requires
            net.wf(),
        ensures
            info.describes(net.base_value(), net.prefix()),
    {
        let count: String = if net.prefix_len() == 0 {
            String::from_str("340282366920938463463374607431768211456")
        } else {
            decimal_string(net.num_addresses())
        };
        SubnetInfo {
            network: net.to_text(),
            network_address: net.network_address().compressed(),
            first_address: net.network_address().compressed(),
            last_address: net.broadcast_address().compressed(),
            prefix_length: net.prefix_len(),
            num_addresses: count,
            netmask: net.netmask().exploded(),
        }
    }
}

/// Computes `bits_needed`.
pub fn count_bits(n: usize) -> (b: u8)
    ensures
        b == bits_needed(n as nat),
        b <= 64,
{
    let mut m: usize = n;
    let mut b: u8 = 0;
    proof {
        vstd::arithmetic::power2::lemma2_to64();
        vstd::arithmetic::power2::lemma2_to64_rest();
    }
    while m > 1
        invariant
            bits_needed(n as nat) == b + bits_needed(m as nat),
            b <= 64,
            b < 64 ==> m as nat <= pow2((64 - b) as nat),
            b == 64 ==> m <= 1,
        decreases m,
    {
        proof {
            vstd::arithmetic::power2::lemma_pow2_unfold((64 - b) as nat);
        }
        m = m / 2 + m % 2;
        b = b + 1;
        proof {
            vstd::arithmetic::power2::lemma2_to64();
        }
    }
    b
}

fn describe_range(nets: &Vec<IPv6Network>, lo: usize, hi: usize) -> (out: Vec<SubnetInfo>)
    requires
        lo <= hi <= nets@.len(),
        forall|i: int| 0 <= i < nets@.len() ==> (#[trigger] nets@[i]).wf(),
    ensures
        out@.len() == hi - lo,
        forall|j: int|
            0 <= j < hi - lo ==> (#[trigger] out@[j]).describes(
                nets@[lo + j].base_value(),
                nets@[lo + j].prefix(),
            ),
{
    let mut out: Vec<SubnetInfo> = Vec::new();
    let mut i: usize = lo;
    while i < hi
        invariant
            lo <= i <= hi <= nets@.len(),
            forall|k: int| 0 <= k < nets@.len() ==> (#[trigger] nets@[k]).wf(),
            out@.len() == i - lo,
            forall|j: int|
                0 <= j < i - lo ==> (#[trigger] out@[j]).describes(
                    nets@[lo + j].base_value(),
                    nets@[lo + j].prefix(),
                ),
        decreases hi - i,
    {
        out.push(SubnetInfo::from_network(&nets[i]));
        i += 1;
    }
    out
}

fn describe_all(nets: &Vec<IPv6Network>, limit: usize) -> (out: Vec<SubnetInfo>)
    requires
        limit <= nets@.len(),
        forall|i: int| 0 <= i < nets@.len() ==> (#[trigger] nets@[i]).wf(),
    ensures
        out@.len() == limit,
        forall|i: int|
            0 <= i < limit ==> (#[trigger] out@[i]).describes(
                nets@[i].base_value(),
                nets@[i].prefix(),
            ),
{
    describe_range(nets, 0, limit)
}

/// The sum of the counts.
pub open spec fn total(counts: Seq<usize>) -> nat
    decreases counts.len(),
{
    if counts.len() == 0 {
        0
    } else {
        total(counts.drop_last()) + counts.last() as nat
    }
}

/// The sum of the first `k` counts is at most the sum of all.
pub proof fn lemma_total_grows(counts: Seq<usize>, k: int)
    requires
        0 <= k <= counts.len(),
    ensures
        total(counts.take(k)) <= total(counts),
    decreases counts.len() - k,
{
    if k < counts.len() {
        lemma_total_grows(counts, k + 1);
        assert(counts.take(k + 1).drop_last() =~= counts.take(k));
    } else {
        assert(counts.take(k) =~= counts);
    }
}

/// Adds up the counts, unless the sum leaves the range of `usize`.
pub fn sum_counts(counts: &Vec<usize>) -> (r: Option<usize>)
    ensures
        match r {
            Some(s) => s == total(counts@),
            None => total(counts@) > usize::MAX,
        },
{
    let mut sum: usize = 0;
    let mut i: usize = 0;
    while i < counts.len()
        invariant
            i <= counts@.len(),
            sum == total(counts@.take(i as int)),
        decreases counts@.len() - i,
    {
        proof {
            assert(counts@.take(i + 1).drop_last() =~= counts@.take(i as int));
            lemma_total_grows(counts@, i + 1);
        }
        if counts[i] > usize::MAX - sum {
            return None;
        }
        sum = sum + counts[i];
        i += 1;
    }
    assert(counts@.take(counts@.len() as int) =~= counts@);
    Some(sum)
}

/// A calculator for one network.
pub struct IPv6SubnetCalculator {
    network: IPv6Network,
}

impl IPv6SubnetCalculator {
    /// The network that the calculator works on.
    pub closed spec fn network(&self) -> IPv6Network {
        self.network
    }

    /// The network is well formed.
    pub open spec fn wf(&self) -> bool {
        self.network().wf()
    }

    /// A calculator for the network that `network` writes.
    pub fn new(network: &str) -> (r: Result<IPv6SubnetCalculator, Ipv6Error>)
        ensures
            match r {
                Ok(c) => parse_network(network@) == Ok::<(u128, u8), Ipv6Error>(
                    (c.network().base_value(), c.network().prefix()),
                ) && c.wf(),
                Err(e) => parse_network(network@) == Err::<(u128, u8), Ipv6Error>(e),
            },
    {
        match IPv6Network::new(network) {
            Ok(n) => Ok(IPv6SubnetCalculator { network: n }),
            Err(e) => Err(e),
        }
    }

    /// The network, described in text.
    pub fn get_info(&self) -> (info: SubnetInfo)
        requires
            self.wf(),
        ensures
            info.describes(self.network().base_value(), self.network().prefix()),
    {
        SubnetInfo::from_network(&self.network)
    }

    /// The first `num_subnets` of the networks that come of adding as few
    /// prefix bits as tell `num_subnets` networks apart.
    pub fn divide_into_subnets(&self, num_subnets: usize) -> (r: Result<
        Vec<SubnetInfo>,
        Ipv6Error,
    >)
        requires
            self.wf(),
        ensures
            match r {
                Ok(v) => {
                    &&& num_subnets >= 1
                    &&& self.network().prefix() + bits_needed(num_subnets as nat) <= 128
                    &&& bits_needed(num_subnets as nat) <= MAX_SUBNET_DIFF
                    &&& v@.len() == num_subnets
                    &&& forall|i: int|
                        0 <= i < v@.len() ==> (#[trigger] v@[i]).describes(
                            subnet_base(
                                self.network().base_value(),
                                self.network().prefix(),
                                bits_needed(num_subnets as nat),
                                i,
                            ),
                            (self.network().prefix() + bits_needed(num_subnets as nat)) as u8,
                        )
                },
                Err(e) => if num_subnets < 1 || self.network().prefix() + bits_needed(
                    num_subnets as nat,
                ) > 128 {
                    e == Ipv6Error::DivisionError
                } else {
                    e == Ipv6Error::NetworkTooLarge && bits_needed(num_subnets as nat)
                        > MAX_SUBNET_DIFF
                },
            },
    {
        if num_subnets < 1 {
            return Err(Ipv6Error::DivisionError);
        }
        let bits: u8 = count_bits(num_subnets);
        match self.network.subnets(bits) {
            Ok(nets) => {
                proof {
                    lemma_bits_cover(num_subnets as nat);
                }
                Ok(describe_all(&nets, num_subnets))
            },
            Err(e) => Err(e),
        }
    }

    /// The networks of prefix length `new_prefix` that the network divides into.
    pub fn divide_by_prefix(&self, new_prefix: u8) -> (r: Result<Vec<SubnetInfo>, Ipv6Error>)
        requires
            self.wf(),
        ensures
            match r {
                Ok(v) => {
                    &&& self.network().prefix() < new_prefix <= 128
                    &&& new_prefix - self.network().prefix() <= MAX_SUBNET_DIFF
                    &&& v@.len() == pow2((new_prefix - self.network().prefix()) as nat)
                    &&& forall|i: int|
                        0 <= i < v@.len() ==> (#[trigger] v@[i]).describes(
                            subnet_base(
                                self.network().base_value(),
                                self.network().prefix(),
                                (new_prefix - self.network().prefix()) as nat,
                                i,
                            ),
                            new_prefix,
                        )
                },
                Err(e) => if new_prefix <= self.network().prefix() {
                    e == Ipv6Error::DivisionError
                } else if new_prefix > 128 {
                    e == Ipv6Error::InvalidPrefix
                } else {
                    e == Ipv6Error::NetworkTooLarge && new_prefix - self.network().prefix()
                        > MAX_SUBNET_DIFF
                },
            },
    {
        if new_prefix <= self.network.prefix_len() {
            return Err(Ipv6Error::DivisionError);
        }
        if new_prefix > 128 {
            return Err(Ipv6Error::InvalidPrefix);
        }
        let diff: u8 = new_prefix - self.network.prefix_len();
        match self.network.subnets(diff) {
            Ok(nets) => Ok(describe_all(&nets, nets.len())),
            Err(e) => Err(e),
        }
    }

    /// The network of the shorter prefix length `new_prefix` that holds this one.
    pub fn get_supernet(&self, new_prefix: u8) -> (r: Result<SubnetInfo, Ipv6Error>)
        requires
            self.wf(),
        ensures
            match r {
                Ok(info) => new_prefix < self.network().prefix() && info.describes(
                    self.network().base_value() & netmask_of(new_prefix),
                    new_prefix,
                ),
                Err(e) => e == Ipv6Error::DivisionError && new_prefix >= self.network().prefix(),
            },
    {
        if new_prefix >= self.network.prefix_len() {
            return Err(Ipv6Error::DivisionError);
        }
        let diff: u8 = self.network.prefix_len() - new_prefix;
        match self.network.supernet(diff) {
            Ok(s) => Ok(SubnetInfo::from_network(&s)),
            Err(e) => Err(e),
        }
    }

    /// Whether `address` writes an address that lies in the network.
    pub fn contains_address(&self, address: &str) -> (b: bool)
        requires
            self.wf(),
        ensures
            b == (parse_address(address@) matches Some(a) && self.network().holds(a.0)),
    {
        match IPv6Address::new(address) {
            Ok(a) => self.network.contains(&a),
            Err(_) => false,
        }
    }

    /// Whether `other_network` writes a network that overlaps this one.
    pub fn overlaps_with(&self, other_network: &str) -> (b: bool)
        requires
            self.wf(),
        ensures
            b == (parse_network(other_network@) matches Ok(o) && self.network().base_value() <= (o.0
                | hostmask_of(o.1)) && o.0 <= self.network().last_value()),
    {
        match IPv6Network::new(other_network) {
            Ok(other) => self.network.overlaps(&other),
            Err(_) => false,
        }
    }

    /// Shares the network out among groups that ask for `counts[0]`,
    /// `counts[1]`, ... networks: the network is divided by as few bits as
    /// give enough networks for all, and each group gets the next
    /// `counts[k]` of them, in order.
    pub fn recommend_allocation(total_prefix: &str, counts: &Vec<usize>) -> (r: Result<
        Vec<Vec<SubnetInfo>>,
        Ipv6Error,
    >)
        ensures
            match r {
                Ok(v) => parse_network(total_prefix@) matches Ok(n) && {
                    let bits = bits_needed(total(counts@));
                    &&& total(counts@) <= usize::MAX
                    &&& n.1 + bits <= 128
                    &&& bits <= MAX_SUBNET_DIFF
                    &&& v@.len() == counts@.len()
                    &&& forall|k: int|
                        0 <= k < v@.len() ==> (#[trigger] v@[k])@.len() == counts@[k]
                    &&& forall|k: int, j: int|
                        0 <= k < v@.len() && 0 <= j < counts@[k] ==> (#[trigger] v@[k]@[j]).describes(
                            subnet_base(n.0, n.1, bits, total(counts@.take(k)) + j),
                            (n.1 + bits) as u8,
                        )
                },
                Err(e) => match parse_network(total_prefix@) {
                    Err(f) => e == f,
                    Ok(n) => if total(counts@) > usize::MAX || n.1 + bits_needed(total(counts@))
                        > 128 {
                        e == Ipv6Error::DivisionError
                    } else {
                        e == Ipv6Error::NetworkTooLarge && bits_needed(total(counts@))
                            > MAX_SUBNET_DIFF
                    },
                },
            },
    {
        let network: IPv6Network = match IPv6Network::new(total_prefix) {
            Ok(n) => n,
            Err(e) => {
                return Err(e);
            },
        };
        let needed: usize = match sum_counts(counts) {
            Some(s) => s,
            None => {
                return Err(Ipv6Error::DivisionError);
            },
        };
        let bits: u8 = count_bits(needed);
        let nets: Vec<IPv6Network> = match network.subnets(bits) {
            Ok(v) => v,
            Err(e) => {
                return Err(e);
            },
        };
        proof {
            lemma_bits_cover(needed as nat);
        }
        let ghost base = network.base_value();
        let ghost p = network.prefix();
        let mut out: Vec<Vec<SubnetInfo>> = Vec::new();
        let mut cur: usize = 0;
        let mut k: usize = 0;
        while k < counts.len()
            invariant
                k <= counts@.len(),
                cur == total(counts@.take(k as int)),
                needed == total(counts@),
                needed <= nets@.len(),
                is_division(network, bits, nets@),
                base == network.base_value(),
                p == network.prefix(),
                out@.len() == k,
                forall|kk: int| 0 <= kk < k ==> (#[trigger] out@[kk])@.len() == counts@[kk],
                forall|kk: int, j: int|
                    0 <= kk < k && 0 <= j < counts@[kk] ==> (#[trigger] out@[kk]@[j]).describes(
                        subnet_base(base, p, bits as nat, total(counts@.take(kk)) + j),
                        (p + bits) as u8,
                    ),
            decreases counts@.len() - k,
        {
            proof {
                assert(counts@.take(k + 1).drop_last() =~= counts@.take(k as int));
                lemma_total_grows(counts@, k + 1);
            }
            let next: usize = cur + counts[k];
            let part: Vec<SubnetInfo> = describe_range(&nets, cur, next);
            proof {
                assert forall|j: int| 0 <= j < counts@[k as int] implies (#[trigger] part@[j]).describes(
                    subnet_base(base, p, bits as nat, total(counts@.take(k as int)) + j),
                    (p + bits) as u8,
                ) by {
                    assert(nets@[cur + j].wf());
                }
            }
            out.push(part);
            cur = next;
            k += 1;
        }
        Ok(out)
    }
}

/// `bits_needed(n)` bits are enough for `n` things: `2^bits_needed(n) >= n`.
pub proof fn lemma_bits_cover(n: nat)
    ensures
        pow2(bits_needed(n)) >= n,
    decreases n,
{
    if n <= 1 {
        vstd::arithmetic::power2::lemma2_to64();
    } else {
        lemma_bits_cover((n / 2 + n % 2) as nat);
        vstd::arithmetic::power2::lemma_pow2_unfold(bits_needed(n));
    }
}

/// No fewer bits are enough: for `n >= 2`, `2^(bits_needed(n) - 1) < n`.
pub proof fn lemma_bits_least(n: nat)
    requires
        n >= 2,
    ensures
        bits_needed(n) >= 1,
        pow2((bits_needed(n) - 1) as nat) < n,
    decreases n,
{
    let h = (n / 2 + n % 2) as nat;
    if h <= 1 {
        vstd::arithmetic::power2::lemma2_to64();
    } else {
        lemma_bits_least(h);
        vstd::arithmetic::power2::lemma_pow2_unfold((bits_needed(n) - 1) as nat);
    }
}

} // verus!
