//! Laws of network arithmetic: ranges, containment, overlap, division and
//! aggregation.

use vstd::prelude::*;
use vstd::arithmetic::div_mod::{lemma_fundamental_div_mod, lemma_mod_bound};
use vstd::arithmetic::power2::{lemma_pow2_adds, lemma_pow2_pos, lemma_pow2_unfold, pow2};
use vstd::bits::lemma_u128_shr_is_div;
use crate::address::{link_local_value, unique_local_value};
use crate::generate::{eui64_octets, link_local_octets, octets_value, unique_local_octets};
use crate::network::{
    hostmask_of, is_division, lemma_hostmask_value, lemma_last_value, netmask_of, IPv6Network,
};

verus! {

/// A value lies in a network exactly when it lies between the network's
/// first and last address.
pub proof fn lemma_holds_is_range(n: IPv6Network, a: u128)
    requires
        n.wf(),
    ensures
        n.holds(a) <==> n.base_value() <= a <= n.last_value(),
{
    let b = n.base_value();
    let p = n.prefix();
    if p == 0 {
        assert(b == 0 && a & 0u128 == 0 && a <= 0u128 | !0u128) by (bit_vector)
            requires
                b & !0u128 == 0,
        ;
    } else {
        let h: u128 = (128 - p) as u128;
        let m: u128 = !0u128 << h;
        assert((a & m == b) <==> (b <= a && a <= b | !m)) by (bit_vector)
            requires
                b & !m == 0,
                m == !0u128 << h,
                h < 128,
        ;
    }
}

/// A network holds its first and its last address, and neither the value
/// just below the first nor the value just above the last.
pub proof fn lemma_holds_bounds(n: IPv6Network, a: u128)
    requires
        n.wf(),
    ensures
        n.holds(n.base_value()),
        n.holds(n.last_value()),
        a + 1 == n.base_value() ==> !n.holds(a),
        a == n.last_value() + 1 ==> !n.holds(a),
{
    lemma_last_value(n);
    lemma_holds_is_range(n, n.base_value());
    lemma_holds_is_range(n, n.last_value());
    lemma_holds_is_range(n, a);
}

/// Overlap is symmetric.
pub proof fn lemma_meets_symmetric(a: IPv6Network, b: IPv6Network)
    ensures
        a.meets(&b) == b.meets(&a),
{
}

/// A network overlaps itself.
pub proof fn lemma_meets_self(n: IPv6Network)
    requires
        n.wf(),
    ensures
        n.meets(&n),
{
    lemma_last_value(n);
}

/// Two networks overlap exactly when some value lies in both.
pub proof fn lemma_meets_is_shared_value(a: IPv6Network, b: IPv6Network)
    requires
        a.wf(),
        b.wf(),
    ensures
        a.meets(&b) <==> exists|x: u128| a.holds(x) && b.holds(x),
{
    lemma_last_value(a);
    lemma_last_value(b);
    if a.meets(&b) {
        let x: u128 = if a.base_value() >= b.base_value() {
            a.base_value()
        } else {
            b.base_value()
        };
        lemma_holds_is_range(a, x);
        lemma_holds_is_range(b, x);
        assert(a.holds(x) && b.holds(x));
    }
    if exists|x: u128| a.holds(x) && b.holds(x) {
        let x = choose|x: u128| a.holds(x) && b.holds(x);
        lemma_holds_is_range(a, x);
        lemma_holds_is_range(b, x);
    }
}

/// The networks of a division tile the divided network: the first starts
/// where it starts, the last ends where it ends, each starts one after the
/// end of the one before, and no two of them overlap.
pub proof fn lemma_division_tiles(n: IPv6Network, d: u8, v: Seq<IPv6Network>)
    requires
        n.wf(),
        is_division(n, d, v),
    ensures
        v.len() >= 1,
        v[0].base_value() == n.base_value(),
        v[v.len() - 1].last_value() == n.last_value(),
        forall|i: int| 0 <= i < v.len() - 1 ==> (#[trigger] v[i]).last_value() + 1 == v[i
            + 1].base_value(),
        forall|i: int, j: int|
            0 <= i < j < v.len() ==> !(#[trigger] v[i].meets(&v[j])),
{
    let h: nat = (128 - n.prefix() - d) as nat;
    let size: int = pow2(h) as int;
    let count: int = v.len() as int;
    lemma_pow2_pos(d as nat);
    lemma_pow2_pos(h);
    lemma_pow2_adds(d as nat, h);
    lemma_last_value(n);
    assert forall|i: int| 0 <= i < v.len() implies (#[trigger] v[i]).last_value()
        == n.base_value() + i * size + size - 1 by {
        lemma_last_value(v[i]);
    }
    assert((count - 1) * size + size == count * size) by (nonlinear_arith);
    assert forall|i: int| 0 <= i < v.len() - 1 implies (#[trigger] v[i]).last_value() + 1 == v[i
        + 1].base_value() by {
        assert((i + 1) * size == i * size + size) by (nonlinear_arith);
    }
    assert forall|i: int, j: int| 0 <= i < j < v.len() implies !(#[trigger] v[i].meets(&v[j])) by {
        assert((i + 1) * size <= j * size) by (nonlinear_arith)
            requires
                i + 1 <= j,
                size > 0,
        ;
        assert((i + 1) * size == i * size + size) by (nonlinear_arith);
    }
}

/// A value lies in the divided network exactly when it lies in one of the
/// networks of the division.
pub proof fn lemma_division_covers(n: IPv6Network, d: u8, v: Seq<IPv6Network>, a: u128)
    requires
        n.wf(),
        is_division(n, d, v),
    ensures
        n.holds(a) <==> exists|i: int| 0 <= i < v.len() && (#[trigger] v[i]).holds(a),
{
    let h: nat = (128 - n.prefix() - d) as nat;
    let size: int = pow2(h) as int;
    let count: int = v.len() as int;
    let base: int = n.base_value() as int;
    lemma_pow2_pos(d as nat);
    lemma_pow2_pos(h);
    lemma_pow2_adds(d as nat, h);
    lemma_last_value(n);
    lemma_holds_is_range(n, a);
    if n.holds(a) {
        let off: int = a - base;
        let i: int = off / size;
        lemma_fundamental_div_mod(off, size);
        lemma_mod_bound(off, size);
        assert(0 <= i < count) by (nonlinear_arith)
            requires
                off == size * i + off % size,
                0 <= off % size < size,
                0 <= off < count * size,
                size > 0,
        ;
        assert(size * i == i * size) by (nonlinear_arith);
        lemma_last_value(v[i]);
        lemma_holds_is_range(v[i], a);
        assert(v[i].holds(a));
    }
    if exists|i: int| 0 <= i < v.len() && (#[trigger] v[i]).holds(a) {
        let i = choose|i: int| 0 <= i < v.len() && (#[trigger] v[i]).holds(a);
        lemma_last_value(v[i]);
        lemma_holds_is_range(v[i], a);
        assert(0 <= i * size && i * size + size <= count * size) by (nonlinear_arith)
            requires
                0 <= i < count,
                size > 0,
        ;
    }
}

/// Shifting left by `h` multiplies by `2^h` where the product fits.
pub proof fn lemma_shl_is_mul(x: u128, h: u128)
    requires
        h < 128,
        x * pow2(h as nat) <= u128::MAX,
    ensures
        (x << h) == x * pow2(h as nat),
    decreases h,
{
    if h == 0 {
        assert(x << 0u128 == x) by (bit_vector);
        vstd::arithmetic::power2::lemma2_to64();
    } else {
        let g: u128 = (h - 1) as u128;
        lemma_pow2_unfold(h as nat);
        lemma_pow2_pos(g as nat);
        assert(x * pow2(h as nat) == 2 * (x * pow2(g as nat))) by (nonlinear_arith)
            requires
                pow2(h as nat) == 2 * pow2(g as nat),
        ;
        lemma_shl_is_mul(x, g);
        let y: u128 = x << g;
        assert((x << h) == 2 * y) by (bit_vector)
            requires
                0 < h < 128,
                g == h - 1,
                y == x << g,
                y <= 0x7fff_ffff_ffff_ffff_ffff_ffff_ffff_ffff,
        ;
    }
}

/// A network is one of the networks that its supernet divides into: going
/// up by `d` bits and dividing by `d` bits again gives it back as a member.
pub proof fn lemma_supernet_division_has(
    n: IPv6Network,
    d: u8,
    s: IPv6Network,
    v: Seq<IPv6Network>,
)
    requires
        n.wf(),
        d <= n.prefix(),
        s.wf(),
        s.prefix() == n.prefix() - d,
        s.base_value() == n.base_value() & netmask_of(s.prefix()),
        is_division(s, d, v),
    ensures
        exists|i: int|
            0 <= i < v.len() && (#[trigger] v[i]).base_value() == n.base_value() && v[i].prefix()
                == n.prefix(),
{
    let p = n.prefix();
    let h: u128 = (128 - p) as u128;
    let x = n.base_value();
    let ms = netmask_of(s.prefix());
    let mn = hostmask_of(p);
    lemma_pow2_pos(d as nat);
    lemma_pow2_pos(h as nat);
    if h == 128 {
        assert(x == 0 && x & 0u128 == 0) by (bit_vector)
            requires
                x & !0u128 == 0,
        ;
        assert(v[0].base_value() == n.base_value());
    } else {
        let off: u128 = x & !ms;
        assert(x == (x & ms) + off) by (bit_vector)
            requires
                off == x & !ms,
        ;
        let i: u128 = off >> h;
        assert((i << h) == off) by (bit_vector)
            requires
                i == off >> h,
                off == x & !ms,
                x & !(!0u128 << h) == 0,
                h < 128,
        ;
        lemma_u128_shr_is_div(off, h);
        lemma_fundamental_div_mod(off as int, pow2(h as nat) as int);
        lemma_mod_bound(off as int, pow2(h as nat) as int);
        assert(i * pow2(h as nat) == pow2(h as nat) * i) by (nonlinear_arith);
        lemma_shl_is_mul(i, h);
        lemma_hostmask_value(s.prefix());
        lemma_pow2_adds(d as nat, h as nat);
        assert(off <= !ms) by (bit_vector)
            requires
                off == x & !ms,
        ;
        assert(i < pow2(d as nat)) by (nonlinear_arith)
            requires
                i * pow2(h as nat) < pow2(d as nat) * pow2(h as nat),
                pow2(h as nat) > 0,
        ;
        assert(v[i as int].base_value() == n.base_value());
    }
}

/// The value of two to sixteen bytes starts with its first two bytes, and
/// has no bit above those that the bytes fill.
pub proof fn lemma_octets_top(b: Seq<u8>)
    requires
        2 <= b.len() <= 16,
    ensures
        b.len() < 16 ==> octets_value(b) >> ((8 * b.len()) as u128) == 0,
        octets_value(b) >> ((8 * (b.len() - 2)) as u128) == ((b[0] as u128) << 8 | (b[1] as u128)),
    decreases b.len(),
{
    let d = b.drop_last();
    let y = b.last() as u128;
    let x = octets_value(d);
    assert(octets_value(b) == (x << 8) | y);
    if b.len() == 2 {
        let e = d.drop_last();
        let b0 = b[0] as u128;
        assert(d.last() == b[0]);
        assert(octets_value(e) == 0);
        assert(x == (0u128 << 8) | b0);
        assert((((0u128 << 8) | b0) << 8 | y) >> 16 == 0 && (((0u128 << 8) | b0) << 8 | y) >> 0
            == (b0 << 8 | y)) by (bit_vector)
            requires
                b0 < 256,
                y < 256,
        ;
    } else {
        lemma_octets_top(d);
        assert(d[0] == b[0] && d[1] == b[1]);
        let k: u128 = (8 * (b.len() - 3)) as u128;
        let top = (b[0] as u128) << 8 | (b[1] as u128);
        assert(((x << 8) | y) >> ((k + 8) as u128) == top && (k + 24 < 128 ==> ((x << 8) | y) >> ((k
            + 24) as u128) == 0)) by (bit_vector)
            requires
                x >> ((k + 16) as u128) == 0,
                x >> k == top,
                y < 256,
                k + 24 <= 128,
        ;
    }
}

/// Every address built from `fe80::` and an interface identifier is link-local.
pub proof fn lemma_link_local_class(iid: Seq<u8>)
    requires
        iid.len() == 8,
    ensures
        link_local_value(octets_value(link_local_octets(iid))),
{
    let b = link_local_octets(iid);
    lemma_octets_top(b);
    let v = octets_value(b);
    assert(v >> 118 == 0x3fa) by (bit_vector)
        requires
            v >> 112 == (0xfeu128 << 8 | 0x80u128),
    ;
}

/// Every address derived from a MAC address is link-local.
pub proof fn lemma_mac_class(mac: Seq<u8>)
    requires
        mac.len() == 6,
    ensures
        link_local_value(octets_value(link_local_octets(eui64_octets(mac)))),
{
    lemma_link_local_class(eui64_octets(mac));
}

/// Every address built from `fd` and the three identifiers is unique local.
pub proof fn lemma_unique_local_class(gid: Seq<u8>, sid: Seq<u8>, iid: Seq<u8>)
    requires
        gid.len() == 5,
        sid.len() == 2,
        iid.len() == 8,
    ensures
        unique_local_value(octets_value(unique_local_octets(gid, sid, iid))),
{
    let b = unique_local_octets(gid, sid, iid);
    lemma_octets_top(b);
    let v = octets_value(b);
    let b1 = b[1] as u128;
    assert(v >> 121 == 0x7e) by (bit_vector)
        requires
            v >> 112 == (0xfdu128 << 8 | b1),
            b1 < 256,
    ;
}

} // verus!
