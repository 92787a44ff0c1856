//! Address generation and conversion helpers: link-local, unique local,
//! random-in-prefix and MAC-derived addresses, reverse DNS names, and
//! validation of free text.

use vstd::prelude::*;
use vstd::string::*;
use crate::address::{parse_address, IPv6Address};
use crate::error::{message_text, Ipv6Error};
use crate::format::{compressed_text, exploded_text, hex_text, write_compressed, write_hex};
use crate::literal::all_hex;
use crate::network::{
    hostmask_of, netmask_of, parse_network, prefix_to_host_mask, IPv6Network,
};
use crate::text::{chars_of, find_char, first_pos, hex_digit, text_of};

verus! {

/// The bytes that an even number of hexadecimal digits write, two digits to
/// a byte; `None` for an odd number of characters or for any other character.
pub open spec fn hex_bytes(t: Seq<char>) -> Option<Seq<u8>> {
    if t.len() % 2 == 0 && all_hex(t) {
        Some(
            Seq::new(
                (t.len() / 2) as nat,
                |i: int|
                    (16 * hex_digit(t[2 * i]).unwrap() + hex_digit(t[2 * i + 1]).unwrap()) as u8,
            ),
        )
    } else {
        None
    }
}

/// Calls `hex::decode`. It accepts exactly the texts made of an even number
/// of hexadecimal digits of either case, and returns the byte that each pair
/// of digits writes, the first digit being the high half.
#[verifier::external_body]
fn hex_decode(s: &str) -> (r: Option<Vec<u8>>)
    ensures
        match r {
            Some(v) => hex_bytes(s@) == Some(v@),
            None => hex_bytes(s@) is None,
        },
{
    hex::decode(s).ok()
}

/// Calls `rand::Rng::fill` on `rand::thread_rng()` over a buffer of `n`
/// bytes. Only the length of the result is known.
#[verifier::external_body]
fn random_bytes(n: usize) -> (out: Vec<u8>)
    ensures
        out@.len() == n,
{
    let mut bytes: Vec<u8> = vec![0u8; n];
    rand::Rng::fill(&mut rand::thread_rng(), &mut bytes[..]);
    bytes
}

/// Calls `rand::Rng::gen` on `rand::thread_rng()` for a `u64`. Nothing is
/// known of the result.
#[verifier::external_body]
fn random_u64() -> u64 {
    rand::Rng::gen::<u64>(&mut rand::thread_rng())
}

/// Calls `rand::Rng::gen` on `rand::thread_rng()` for a `u128`. Nothing is
/// known of the result.
#[verifier::external_body]
fn random_u128() -> u128 {
    rand::Rng::gen::<u128>(&mut rand::thread_rng())
}

/// Whether `c` is a separator that component texts may hold: `:` or `-`,
/// and `.` too where `dot` is set.
pub open spec fn is_separator(c: char, dot: bool) -> bool {
    c == ':' || c == '-' || (dot && c == '.')
}

/// `t` without its separators.
pub open spec fn strip_separators(t: Seq<char>, dot: bool) -> Seq<char>
    decreases t.len(),
{
    if t.len() == 0 {
        Seq::<char>::empty()
    } else if is_separator(t.last(), dot) {
        strip_separators(t.drop_last(), dot)
    } else {
        strip_separators(t.drop_last(), dot).push(t.last())
    }
}

/// The `n` bytes that the component text `t` writes: after its separators
/// are taken out, it must be exactly `2 * n` hexadecimal digits.
pub open spec fn component_bytes(t: Seq<char>, n: nat, dot: bool) -> Option<Seq<u8>> {
    let c = strip_separators(t, dot);
    if c.len() != 2 * n {
        None
    } else {
        hex_bytes(c)
    }
}

/// The 128-bit value of up to sixteen bytes, the first the most significant.
pub open spec fn octets_value(b: Seq<u8>) -> u128
    decreases b.len(),
{
    if b.len() == 0 {
        0
    } else {
        (octets_value(b.drop_last()) << 8) | (b.last() as u128)
    }
}

/// `fe80::` followed by the eight bytes of the interface identifier.
pub open spec fn link_local_octets(iid: Seq<u8>) -> Seq<u8> {
    seq![0xfeu8, 0x80u8, 0u8, 0u8, 0u8, 0u8, 0u8, 0u8] + iid
}

/// `fd`, then the five bytes of the global identifier, the two of the
/// subnet identifier and the eight of the interface identifier.
pub open spec fn unique_local_octets(gid: Seq<u8>, sid: Seq<u8>, iid: Seq<u8>) -> Seq<u8> {
    seq![0xfdu8] + gid + sid + iid
}

/// The EUI-64 interface identifier of a six-byte MAC address: the
/// universal/local bit of the first byte flipped, and `ff fe` put between
/// the third and the fourth byte.
pub open spec fn eui64_octets(mac: Seq<u8>) -> Seq<u8> {
    seq![mac[0] ^ 0x02u8, mac[1], mac[2], 0xffu8, 0xfeu8, mac[3], mac[4], mac[5]]
}

/// The text of an optional argument.
pub open spec fn given_text(o: Option<&str>) -> Option<Seq<char>> {
    match o {
        Some(s) => Some(s@),
        None => None,
    }
}

/// `b` may stand for the component: it is what the given text writes, or,
/// where no text is given, any `n` bytes.
pub open spec fn component_is(given: Option<Seq<char>>, n: nat, b: Seq<u8>) -> bool {
    match given {
        Some(t) => component_bytes(t, n, false) == Some(b),
        None => b.len() == n,
    }
}

/// A text is given and does not write `n` bytes.
pub open spec fn component_bad(given: Option<Seq<char>>, n: nat) -> bool {
    match given {
        Some(t) => component_bytes(t, n, false) is None,
        None => false,
    }
}

/// The prefix text, with `/64` after it where it has no `/`.
pub open spec fn with_default_prefix(t: Seq<char>) -> Seq<char> {
    if first_pos(t, '/') < t.len() {
        t
    } else {
        t + seq!['/', '6', '4']
    }
}

/// The characters of `t` from the last to the first, with a `.` between
/// each two.
pub open spec fn dotted_reverse(t: Seq<char>) -> Seq<char> {
    Seq::new(
        if t.len() == 0 { 0nat } else { (2 * t.len() - 1) as nat },
        |k: int| if k % 2 == 1 { '.' } else { t[t.len() - 1 - k / 2] },
    )
}

/// The reverse DNS name of the value `v`.
pub open spec fn reverse_name(v: u128) -> Seq<char> {
    dotted_reverse(hex_text(v)) + ".ip6.arpa"@
}

/// Takes the separators out of `cs`.
pub fn strip_chars(cs: &Vec<char>, dot: bool) -> (out: Vec<char>)
    ensures
        out@ == strip_separators(cs@, dot),
{
    let mut out: Vec<char> = Vec::new();
    let mut i: usize = 0;
    while i < cs.len()
        invariant
            i <= cs@.len(),
            out@ == strip_separators(cs@.take(i as int), dot),
        decreases cs@.len() - i,
    {
        let c: char = cs[i];
        proof {
            let t1 = cs@.take(i + 1);
            assert(t1.drop_last() =~= cs@.take(i as int));
            assert(t1.last() == c);
        }
        if !(c == ':' || c == '-' || (dot && c == '.')) {
            out.push(c);
        }
        i += 1;
    }
    assert(cs@.take(cs@.len() as int) =~= cs@);
    out
}

/// Reads a component of `n` bytes from its text.
pub fn read_component(text: &str, n: usize, dot: bool) -> (r: Result<Vec<u8>, Ipv6Error>)
    requires
        n <= 16,
    ensures
        match r {
            Ok(b) => component_bytes(text@, n as nat, dot) == Some(b@),
            Err(e) => e == Ipv6Error::InvalidAddress && component_bytes(text@, n as nat, dot)
                is None,
        },
{
    let cs: Vec<char> = chars_of(text);
    let clean: Vec<char> = strip_chars(&cs, dot);
    if clean.len() != 2 * n {
        return Err(Ipv6Error::InvalidAddress);
    }
    let joined: String = text_of(&clean, 0, clean.len());
    assert(clean@.subrange(0, clean@.len() as int) =~= clean@);
    match hex_decode(joined.as_str()) {
        Some(b) => Ok(b),
        None => Err(Ipv6Error::InvalidAddress),
    }
}

/// The component that was given, or `n` random bytes where none was.
pub fn resolve_component(given: Option<&str>, n: usize) -> (r: Result<Vec<u8>, Ipv6Error>)
    requires
        n <= 16,
    ensures
        match r {
            Ok(b) => component_is(given_text(given), n as nat, b@) && b@.len() == n,
            Err(e) => e == Ipv6Error::InvalidAddress && component_bad(given_text(given), n as nat),
        },
{
    match given {
        Some(text) => {
            let r = read_component(text, n, false);
            proof {
                if r is Ok {
                    assert(r->Ok_0@.len() == n);
                }
            }
            r
        },
        None => Ok(random_bytes(n)),
    }
}

/// Packs bytes into a value, the first byte the most significant.
pub fn pack_octets(b: &Vec<u8>) -> (v: u128)
    ensures
        v == octets_value(b@),
{
    let mut v: u128 = 0;
    let mut i: usize = 0;
    while i < b.len()
        invariant
            i <= b@.len(),
            v == octets_value(b@.take(i as int)),
        decreases b@.len() - i,
    {
        proof {
            let t1 = b@.take(i + 1);
            assert(t1.drop_last() =~= b@.take(i as int));
            assert(t1.last() == b@[i as int]);
        }
        v = (v << 8) | (b[i] as u128);
        i += 1;
    }
    assert(b@.take(b@.len() as int) =~= b@);
    v
}

fn append_all(out: &mut Vec<u8>, more: &Vec<u8>)
    ensures
        final(out)@ == old(out)@ + more@,
{
    let mut i: usize = 0;
    assert(out@ =~= old(out)@ + more@.take(0));
    while i < more.len()
        invariant
            i <= more@.len(),
            out@ == old(out)@ + more@.take(i as int),
        decreases more@.len() - i,
    {
        out.push(more[i]);
        i += 1;
        assert(out@ =~= old(out)@ + more@.take(i as int));
    }
    assert(more@.take(more@.len() as int) =~= more@);
}

fn text_of_value(v: u128) -> (out: String)
    ensures
        out@ == compressed_text(v),
{
    let body: Vec<char> = write_compressed(v);
    assert(body@.subrange(0, body@.len() as int) =~= body@);
    text_of(&body, 0, body.len())
}

/// The link-local address with the interface identifier `iid`.
pub fn link_local_from(iid: &Vec<u8>) -> (a: IPv6Address)
    requires
        iid@.len() == 8,
    ensures
        a.value() == octets_value(link_local_octets(iid@)),
        a.zone() is None,
{
    let mut octets: Vec<u8> = Vec::new();
    octets.push(0xfe);
    octets.push(0x80);
    octets.push(0);
    octets.push(0);
    octets.push(0);
    octets.push(0);
    octets.push(0);
    octets.push(0);
    append_all(&mut octets, iid);
    assert(octets@ =~= link_local_octets(iid@));
    IPv6Address::from_u128(pack_octets(&octets))
}

/// The unique local address made of the three identifiers.
pub fn unique_local_from(gid: &Vec<u8>, sid: &Vec<u8>, iid: &Vec<u8>) -> (a: IPv6Address)
    requires
        gid@.len() == 5,
        sid@.len() == 2,
        iid@.len() == 8,
    ensures
        a.value() == octets_value(unique_local_octets(gid@, sid@, iid@)),
        a.zone() is None,
{
    let mut octets: Vec<u8> = Vec::new();
    octets.push(0xfd);
    append_all(&mut octets, gid);
    append_all(&mut octets, sid);
    append_all(&mut octets, iid);
    assert(octets@ =~= unique_local_octets(gid@, sid@, iid@));
    IPv6Address::from_u128(pack_octets(&octets))
}

/// The link-local address that a six-byte MAC address gives by EUI-64.
pub fn link_local_from_mac(mac: &Vec<u8>) -> (a: IPv6Address)
    requires
        mac@.len() == 6,
    ensures
        a.value() == octets_value(link_local_octets(eui64_octets(mac@))),
        a.zone() is None,
{
    let mut eui: Vec<u8> = Vec::new();
    eui.push(mac[0] ^ 0x02);
    eui.push(mac[1]);
    eui.push(mac[2]);
    eui.push(0xff);
    eui.push(0xfe);
    eui.push(mac[3]);
    eui.push(mac[4]);
    eui.push(mac[5]);
    assert(eui@ =~= eui64_octets(mac@));
    link_local_from(&eui)
}

/// The address in `network` whose host bits are those of `random`.
pub fn address_in_network(network: &IPv6Network, random: u128) -> (a: IPv6Address)
    requires
        network.wf(),
    ensures
        a.value() == network.base_value() | (random & hostmask_of(network.prefix())),
        a.zone() is None,
        network.holds(a.value()),
{
    let host_mask: u128 = prefix_to_host_mask(network.prefix_len());
    let base: u128 = network.network_address().to_u128();
    let value: u128 = base | (random & host_mask);
    proof {
        let m = netmask_of(network.prefix());
        assert((base | (random & !m)) & m == base) by (bit_vector)
            requires
                base & !m == 0,
        ;
    }
    IPv6Address::from_u128(value)
}

/// The shortened form of the address that `address` writes.
pub fn compress_address(address: &str) -> (r: Result<String, Ipv6Error>)
    ensures
        match r {
            Ok(s) => parse_address(address@) matches Some(a) && s@ == crate::address::with_zone(
                compressed_text(a.0),
                a.1,
            ),
            Err(e) => e == Ipv6Error::InvalidAddress && parse_address(address@) is None,
        },
{
    match IPv6Address::new(address) {
        Ok(a) => Ok(a.compressed()),
        Err(e) => Err(e),
    }
}

/// The full form of the address that `address` writes.
pub fn expand_address(address: &str) -> (r: Result<String, Ipv6Error>)
    ensures
        match r {
            Ok(s) => parse_address(address@) matches Some(a) && s@ == crate::address::with_zone(
                exploded_text(a.0),
                a.1,
            ),
            Err(e) => e == Ipv6Error::InvalidAddress && parse_address(address@) is None,
        },
{
    match IPv6Address::new(address) {
        Ok(a) => Ok(a.exploded()),
        Err(e) => Err(e),
    }
}

/// A link-local address (`fe80::/64`) with the given interface identifier
/// of sixteen hexadecimal digits, or with a random one where none is given.
pub fn generate_link_local(interface_id: Option<&str>) -> (r: Result<String, Ipv6Error>)
    ensures
        match r {
            Ok(s) => exists|iid: Seq<u8>|
                component_is(given_text(interface_id), 8, iid) && #[trigger] compressed_text(
                    octets_value(link_local_octets(iid)),
                ) == s@,
            Err(e) => e == Ipv6Error::InvalidAddress && component_bad(
                given_text(interface_id),
                8,
            ),
        },
{
    let iid: Vec<u8> = match resolve_component(interface_id, 8) {
        Ok(b) => b,
        Err(e) => {
            return Err(e);
        },
    };
    let a: IPv6Address = link_local_from(&iid);
    let s: String = text_of_value(a.to_u128());
    assert(compressed_text(octets_value(link_local_octets(iid@))) == s@);
    Ok(s)
}

/// A unique local address (`fd00::/8`) made of a global identifier of ten
/// hexadecimal digits, a subnet identifier of four and an interface
/// identifier of sixteen; each one that is not given is random.
pub fn generate_unique_local(
    global_id: Option<&str>,
    subnet_id: Option<&str>,
    interface_id: Option<&str>,
) -> (r: Result<String, Ipv6Error>)
    ensures
        match r {
            Ok(s) => exists|gid: Seq<u8>, sid: Seq<u8>, iid: Seq<u8>|
                component_is(given_text(global_id), 5, gid) && component_is(
                    given_text(subnet_id),
                    2,
                    sid,
                ) && component_is(given_text(interface_id), 8, iid) && #[trigger] compressed_text(
                    octets_value(unique_local_octets(gid, sid, iid)),
                ) == s@,
            Err(e) => e == Ipv6Error::InvalidAddress && (component_bad(given_text(global_id), 5)
                || component_bad(given_text(subnet_id), 2) || component_bad(
                given_text(interface_id),
                8,
            )),
        },
{
    let gid: Vec<u8> = match resolve_component(global_id, 5) {
        Ok(b) => b,
        Err(e) => {
            return Err(e);
        },
    };
    let sid: Vec<u8> = match resolve_component(subnet_id, 2) {
        Ok(b) => b,
        Err(e) => {
            return Err(e);
        },
    };
    let iid: Vec<u8> = match resolve_component(interface_id, 8) {
        Ok(b) => b,
        Err(e) => {
            return Err(e);
        },
    };
    let a: IPv6Address = unique_local_from(&gid, &sid, &iid);
    let s: String = text_of_value(a.to_u128());
    assert(compressed_text(octets_value(unique_local_octets(gid@, sid@, iid@))) == s@);
    Ok(s)
}

/// Reads the prefix that random addresses are to lie in; a text without
/// `/` stands for its `/64`.
pub fn prefix_network(prefix: &str) -> (r: Result<IPv6Network, Ipv6Error>)
    ensures
        match r {
            Ok(n) => parse_network(with_default_prefix(prefix@)) == Ok::<(u128, u8), Ipv6Error>(
                (n.base_value(), n.prefix()),
            ) && n.wf(),
            Err(e) => parse_network(with_default_prefix(prefix@)) == Err::<(u128, u8), Ipv6Error>(
                e,
            ),
        },
{
    let mut cs: Vec<char> = chars_of(prefix);
    if find_char(&cs, '/') >= cs.len() {
        cs.push('/');
        cs.push('6');
        cs.push('4');
        assert(cs@ =~= prefix@ + seq!['/', '6', '4']);
    }
    IPv6Network::from_chars(&cs)
}

/// The address in the prefix whose host bits are those of `random`.
pub fn random_ipv6_from(prefix: &str, random: u128) -> (r: Result<String, Ipv6Error>)
    ensures
        match r {
            Ok(s) => parse_network(with_default_prefix(prefix@)) matches Ok(n) && s@
                == compressed_text(n.0 | (random & hostmask_of(n.1))),
            Err(e) => parse_network(with_default_prefix(prefix@)) == Err::<(u128, u8), Ipv6Error>(
                e,
            ),
        },
{
    match prefix_network(prefix) {
        Ok(n) => {
            let a: IPv6Address = address_in_network(&n, random);
            Ok(text_of_value(a.to_u128()))
        },
        Err(e) => Err(e),
    }
}

/// A random address in the prefix: the network bits are those of the
/// prefix, the host bits are random.
pub fn generate_random_ipv6(prefix: &str) -> (r: Result<String, Ipv6Error>)
    ensures
        match r {
            Ok(s) => parse_network(with_default_prefix(prefix@)) matches Ok(n) && exists|x: u128|
                #[trigger] compressed_text(n.0 | (x & hostmask_of(n.1))) == s@,
            Err(e) => parse_network(with_default_prefix(prefix@)) == Err::<(u128, u8), Ipv6Error>(
                e,
            ),
        },
{
    match prefix_network(prefix) {
        Ok(n) => {
            let host_bits: u8 = 128 - n.prefix_len();
            let random: u128 = if host_bits >= 64 {
                let high: u64 = random_u64();
                let low: u64 = random_u64();
                ((high as u128) << 64) | (low as u128)
            } else {
                random_u128()
            };
            let a: IPv6Address = address_in_network(&n, random);
            let s: String = text_of_value(a.to_u128());
            proof {
                let parsed = parse_network(with_default_prefix(prefix@))->Ok_0;
                assert(parsed.0 == n.base_value() && parsed.1 == n.prefix());
                assert(compressed_text(parsed.0 | (random & hostmask_of(parsed.1))) == s@);
            }
            Ok(s)
        },
        Err(e) => Err(e),
    }
}

/// Writes `cs` from the last character to the first, with dots between.
pub fn write_dotted_reverse(cs: &Vec<char>) -> (out: Vec<char>)
    ensures
        out@ == dotted_reverse(cs@),
{
    let n: usize = cs.len();
    let mut out: Vec<char> = Vec::new();
    let mut i: usize = 0;
    while i < n
        invariant
            i <= n,
            n == cs@.len(),
            out@.len() == (if i == 0 { 0int } else { 2 * i - 1 }),
            forall|k: int| 0 <= k < out@.len() ==> out@[k] == dotted_reverse(cs@)[k],
        decreases n - i,
    {
        if i > 0 {
            out.push('.');
        }
        out.push(cs[n - 1 - i]);
        i += 1;
    }
    assert(out@ =~= dotted_reverse(cs@));
    out
}

/// The name under `ip6.arpa` that reverse DNS looks the address up by.
pub fn reverse_pointer(address: &str) -> (r: Result<String, Ipv6Error>)
    ensures
        match r {
            Ok(s) => parse_address(address@) matches Some(a) && s@ == reverse_name(a.0),
            Err(e) => e == Ipv6Error::InvalidAddress && parse_address(address@) is None,
        },
{
    match IPv6Address::new(address) {
        Ok(a) => {
            let digits: Vec<char> = write_hex(a.to_u128());
            let turned: Vec<char> = write_dotted_reverse(&digits);
            let mut out: String = text_of(&turned, 0, turned.len());
            assert(turned@.subrange(0, turned@.len() as int) =~= turned@);
            out.append(".ip6.arpa");
            Ok(out)
        },
        Err(e) => Err(e),
    }
}

/// The link-local address that EUI-64 derives from a MAC address of twelve
/// hexadecimal digits, with or without `:`, `-` or `.` between them.
pub fn mac_to_ipv6_link_local(mac: &str) -> (r: Result<String, Ipv6Error>)
    ensures
        match r {
            Ok(s) => component_bytes(mac@, 6, true) matches Some(m) && s@ == compressed_text(
                octets_value(link_local_octets(eui64_octets(m))),
            ),
            Err(e) => e == Ipv6Error::InvalidAddress && component_bytes(mac@, 6, true) is None,
        },
{
    match read_component(mac, 6, true) {
        Ok(m) => {
            let a: IPv6Address = link_local_from_mac(&m);
            Ok(text_of_value(a.to_u128()))
        },
        Err(e) => Err(e),
    }
}

/// The netmask of a prefix length, in full form.
pub fn calculate_subnet_mask(prefix_length: u8) -> (r: Result<String, Ipv6Error>)
    ensures
        match r {
            Ok(s) => prefix_length <= 128 && s@ == exploded_text(netmask_of(prefix_length)),
            Err(e) => e == Ipv6Error::InvalidPrefix && prefix_length > 128,
        },
{
    match IPv6Network::from_parts(0, prefix_length) {
        Ok(n) => Ok(n.netmask().exploded()),
        Err(e) => Err(e),
    }
}

/// What is wrong with an address text, if anything.
pub open spec fn address_complaint(t: Seq<char>, allow_zone: bool) -> Option<Seq<char>> {
    if t.len() == 0 {
        Some("Address cannot be empty"@)
    } else if first_pos(t, '%') < t.len() && !allow_zone {
        Some("Zone IDs are not allowed"@)
    } else if parse_address(t) is None {
        Some(message_text(Ipv6Error::InvalidAddress))
    } else {
        None
    }
}

/// What is wrong with a network text, if anything.
pub open spec fn network_complaint(t: Seq<char>) -> Option<Seq<char>> {
    if t.len() == 0 {
        Some("Network cannot be empty"@)
    } else if first_pos(t, '/') >= t.len() {
        Some("Network must include prefix length (e.g., 2001:db8::/32)"@)
    } else {
        match parse_network(t) {
            Ok(_) => None,
            Err(e) => Some(message_text(e)),
        }
    }
}

/// Whether `address` writes an address, and the reason where it does not.
/// Without `allow_zone` a text with a `%` is refused.
pub fn validate_ipv6(address: &str, allow_zone: bool) -> (r: (bool, Option<String>))
    ensures
        r.0 == (address_complaint(address@, allow_zone) is None),
        match r.1 {
            Some(m) => address_complaint(address@, allow_zone) == Some(m@),
            None => address_complaint(address@, allow_zone) is None,
        },
{
    let cs: Vec<char> = chars_of(address);
    if cs.len() == 0 {
        return (false, Some(String::from_str("Address cannot be empty")));
    }
    if find_char(&cs, '%') < cs.len() && !allow_zone {
        return (false, Some(String::from_str("Zone IDs are not allowed")));
    }
    match IPv6Address::from_chars(&cs) {
        Some(_) => (true, None),
        None => (false, Some(Ipv6Error::InvalidAddress.message())),
    }
}

/// Whether `network` writes a network, and the reason where it does not.
pub fn validate_ipv6_network(network: &str) -> (r: (bool, Option<String>))
    ensures
        r.0 == (network_complaint(network@) is None),
        match r.1 {
            Some(m) => network_complaint(network@) == Some(m@),
            None => network_complaint(network@) is None,
        },
{
    let cs: Vec<char> = chars_of(network);
    if cs.len() == 0 {
        return (false, Some(String::from_str("Network cannot be empty")));
    }
    if find_char(&cs, '/') >= cs.len() {
        return (
            false,
            Some(String::from_str("Network must include prefix length (e.g., 2001:db8::/32)")),
        );
    }
    match IPv6Network::from_chars(&cs) {
        Ok(_) => (true, None),
        Err(e) => (false, Some(e.message())),
    }
}

} // verus!
