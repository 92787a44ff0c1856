//! A single IPv6 address: a 128-bit value and an optional zone.

use vstd::prelude::*;
use vstd::string::*;
use crate::error::Ipv6Error;
use crate::format::{
    binary_text, compressed_text, exploded_text, hex_text, write_binary, write_compressed,
    write_exploded, write_hex,
};
use crate::literal::{literal_value, parse_literal};
use crate::text::{find_char, first_pos, text_of};

verus! {

/// What an address text writes: the value, and the zone after the first `%`
/// if there is one. A zone must not be empty.
pub open spec fn parse_address(t: Seq<char>) -> Option<(u128, Option<Seq<char>>)> {
    let p = first_pos(t, '%');
    if p >= t.len() {
        match literal_value(t) {
            Some(v) => Some((v, None)),
            None => None,
        }
    } else if p + 1 >= t.len() {
        None
    } else {
        match literal_value(t.subrange(0, p)) {
            Some(v) => Some((v, Some(t.subrange(p + 1, t.len() as int)))),
            None => None,
        }
    }
}

/// `t`, followed by `%` and the zone where there is one.
pub open spec fn with_zone(t: Seq<char>, zone: Option<Seq<char>>) -> Seq<char> {
    match zone {
        Some(z) => t + seq!['%'] + z,
        None => t,
    }
}

/// The sixteen octets of `v`, the most significant first.
pub open spec fn value_octets(v: u128) -> Seq<u8> {
    seq![
        (v >> 120) as u8,
        (v >> 112) as u8,
        (v >> 104) as u8,
        (v >> 96) as u8,
        (v >> 88) as u8,
        (v >> 80) as u8,
        (v >> 72) as u8,
        (v >> 64) as u8,
        (v >> 56) as u8,
        (v >> 48) as u8,
        (v >> 40) as u8,
        (v >> 32) as u8,
        (v >> 24) as u8,
        (v >> 16) as u8,
        (v >> 8) as u8,
        v as u8,
    ]
}

/// The value is `::1`.
pub open spec fn loopback_value(v: u128) -> bool {
    v == 1
}

/// The top ten bits are `1111111010` (`fe80::/10`).
pub open spec fn link_local_value(v: u128) -> bool {
    v >> 118 == 0x3fa
}

/// The top seven bits are `1111110` (`fc00::/7`).
pub open spec fn unique_local_value(v: u128) -> bool {
    v >> 121 == 0x7e
}

/// The top eight bits are all set (`ff00::/8`).
pub open spec fn multicast_value(v: u128) -> bool {
    v >> 120 == 0xff
}

/// The top three bits are `001` (`2000::/3`).
pub open spec fn global_value(v: u128) -> bool {
    v >> 125 == 1
}

/// The value is `::`.
pub open spec fn unspecified_value(v: u128) -> bool {
    v == 0
}

/// The name of the first class that `v` falls in, in the order loopback,
/// link-local, unique local, multicast, global unicast, unspecified.
pub open spec fn class_name(v: u128) -> Seq<char> {
    if loopback_value(v) {
        "Loopback"@
    } else if link_local_value(v) {
        "Link-Local"@
    } else if unique_local_value(v) {
        "Unique Local (ULA)"@
    } else if multicast_value(v) {
        "Multicast"@
    } else if global_value(v) {
        "Global Unicast"@
    } else if unspecified_value(v) {
        "Unspecified"@
    } else {
        "Reserved"@
    }
}

/// An IPv6 address. Two addresses are equal when value and zone both are.
#[derive(Clone, PartialEq, Eq, Hash, Debug)]
pub struct IPv6Address {
    value: u128,
    zone_id: Option<String>,
}

impl IPv6Address {
    /// The 128-bit value.
    pub closed spec fn value(&self) -> u128 {
        self.value
    }

    /// The zone, if the address has one.
    pub closed spec fn zone(&self) -> Option<Seq<char>> {
        match self.zone_id {
            Some(z) => Some(z@),
            None => None,
        }
    }

    /// A zone, where present, is not empty.
    pub open spec fn wf(&self) -> bool {
        self.zone() matches Some(z) ==> z.len() > 0
    }

    /// The address with value `value` and no zone.
    pub fn from_u128(value: u128) -> (a: IPv6Address)
        ensures
            a.value() == value,
            a.zone() is None,
            a.wf(),
    {
        IPv6Address { value, zone_id: None }
    }

    /// Reads the address that `cs` writes.
    pub fn from_chars(cs: &Vec<char>) -> (r: Option<IPv6Address>)
        ensures
            match r {
                Some(a) => parse_address(cs@) == Some((a.value(), a.zone())) && a.wf(),
                None => parse_address(cs@) is None,
            },
    {
        let p: usize = find_char(cs, '%');
        let n: usize = cs.len();
        if p >= n {
            assert(cs@.subrange(0, n as int) =~= cs@);
            match parse_literal(cs, 0, n) {
                Some(v) => Some(IPv6Address { value: v, zone_id: None }),
                None => None,
            }
        } else if p + 1 >= n {
            None
        } else {
            match parse_literal(cs, 0, p) {
                Some(v) => {
                    let zone: String = text_of(cs, p + 1, n);
                    Some(IPv6Address { value: v, zone_id: Some(zone) })
                },
                None => None,
            }
        }
    }

    /// Reads an address, with an optional `%zone` after it.
    pub fn new(address: &str) -> (r: Result<IPv6Address, Ipv6Error>)
        ensures
            match r {
                Ok(a) => parse_address(address@) == Some((a.value(), a.zone())) && a.wf(),
                Err(e) => e == Ipv6Error::InvalidAddress && parse_address(address@) is None,
            },
    {
        let cs: Vec<char> = crate::text::chars_of(address);
        match IPv6Address::from_chars(&cs) {
            Some(a) => Ok(a),
            None => Err(Ipv6Error::InvalidAddress),
        }
    }

    fn finish(&self, body: &Vec<char>) -> (out: String)
        ensures
            out@ == with_zone(body@, self.zone()),
    {
        let mut out: String = text_of(body, 0, body.len());
        assert(body@.subrange(0, body@.len() as int) =~= body@);
        match &self.zone_id {
            Some(z) => {
                out.push('%');
                out.append(z.as_str());
                assert(out@ =~= body@ + seq!['%'] + z@);
            },
            None => {},
        }
        out
    }

    /// The shortened form, with `%zone` after it where there is a zone.
    pub fn compressed(&self) -> (out: String)
        ensures
            out@ == with_zone(compressed_text(self.value()), self.zone()),
    {
        let body: Vec<char> = write_compressed(self.value);
        self.finish(&body)
    }

    /// The full form, with `%zone` after it where there is a zone.
    pub fn exploded(&self) -> (out: String)
        ensures
            out@ == with_zone(exploded_text(self.value()), self.zone()),
    {
        let body: Vec<char> = write_exploded(self.value);
        self.finish(&body)
    }

    /// Whether the address is in `fe80::/10`.
    pub fn is_link_local(&self) -> (b: bool)
        ensures
            b == link_local_value(self.value()),
    {
        self.value >> 118 == 0x3fa
    }

    /// Whether the address is `::1`.
    pub fn is_loopback(&self) -> (b: bool)
        ensures
            b == loopback_value(self.value()),
    {
        self.value == 1
    }

    /// Whether the address is in `ff00::/8`.
    pub fn is_multicast(&self) -> (b: bool)
        ensures
            b == multicast_value(self.value()),
    {
        self.value >> 120 == 0xff
    }

    /// Whether the address is in `2000::/3`.
    pub fn is_global(&self) -> (b: bool)
        ensures
            b == global_value(self.value()),
    {
        self.value >> 125 == 1
    }

    /// Whether the address is in `fc00::/7`.
    pub fn is_unique_local(&self) -> (b: bool)
        ensures
            b == unique_local_value(self.value()),
    {
        self.value >> 121 == 0x7e
    }

    /// Whether the address is `::`.
    pub fn is_unspecified(&self) -> (b: bool)
        ensures
            b == unspecified_value(self.value()),
    {
        self.value == 0
    }

    /// The 128 binary digits of the value.
    pub fn to_binary(&self) -> (out: String)
        ensures
            out@ == binary_text(self.value()),
    {
        let body: Vec<char> = write_binary(self.value);
        assert(body@.subrange(0, body@.len() as int) =~= body@);
        text_of(&body, 0, body.len())
    }

    /// The 32 hexadecimal digits of the value.
    pub fn to_hex(&self) -> (out: String)
        ensures
            out@ == hex_text(self.value()),
    {
        let body: Vec<char> = write_hex(self.value);
        assert(body@.subrange(0, body@.len() as int) =~= body@);
        text_of(&body, 0, body.len())
    }

    /// The name of the first class that the address falls in.
    pub fn address_type(&self) -> (name: &'static str)
        ensures
            name@ == class_name(self.value()),
    {
        if self.is_loopback() {
            "Loopback"
        } else if self.is_link_local() {
            "Link-Local"
        } else if self.is_unique_local() {
            "Unique Local (ULA)"
        } else if self.is_multicast() {
            "Multicast"
        } else if self.is_global() {
            "Global Unicast"
        } else if self.is_unspecified() {
            "Unspecified"
        } else {
            "Reserved"
        }
    }

    /// The sixteen octets that the address is made of.
    pub fn inner(&self) -> (octets: [u8; 16])
        ensures
            octets@ == value_octets(self.value()),
    {
        let v: u128 = self.value;
        let octets: [u8; 16] = [
            (v >> 120) as u8,
            (v >> 112) as u8,
            (v >> 104) as u8,
            (v >> 96) as u8,
            (v >> 88) as u8,
            (v >> 80) as u8,
            (v >> 72) as u8,
            (v >> 64) as u8,
            (v >> 56) as u8,
            (v >> 48) as u8,
            (v >> 40) as u8,
            (v >> 32) as u8,
            (v >> 24) as u8,
            (v >> 16) as u8,
            (v >> 8) as u8,
            v as u8,
        ];
        assert(octets@ =~= value_octets(v));
        octets
    }

    /// The zone, if the address has one.
    pub fn zone_id(&self) -> (z: Option<&str>)
        ensures
            match z {
                Some(s) => self.zone() == Some(s@),
                None => self.zone() is None,
            },
    {
        match &self.zone_id {
            Some(s) => Some(s.as_str()),
            None => None,
        }
    }

    /// The 128-bit value.
    pub fn to_u128(&self) -> (v: u128)
        ensures
            v == self.value(),
    {
        self.value
    }
}

impl std::str::FromStr for IPv6Address {
    type Err = Ipv6Error;

    /// Reads an address as `IPv6Address::new` does.
    fn from_str(s: &str) -> (r: Result<IPv6Address, Ipv6Error>)
        ensures
            match r {
                Ok(a) => parse_address(s@) == Some((a.value(), a.zone())) && a.wf(),
                Err(e) => e == Ipv6Error::InvalidAddress && parse_address(s@) is None,
            },
    {
        IPv6Address::new(s)
    }
}

} // verus!
