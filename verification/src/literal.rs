//! The grammar of an address literal: eight groups of one to four hexadecimal
//! digits separated by single colons, where one `::` may stand for a run of
//! one or more zero groups.

use vstd::prelude::*;
use crate::text::{hex_digit, hex_digit_value};

verus! {

/// Every character of `g` is a hexadecimal digit.
pub open spec fn all_hex(g: Seq<char>) -> bool {
    forall|i: int| 0 <= i < g.len() ==> (#[trigger] hex_digit(g[i])) is Some
}

/// `g` is a (possibly empty) run of at most four hexadecimal digits.
pub open spec fn fits_group(g: Seq<char>) -> bool {
    g.len() <= 4 && all_hex(g)
}

/// `g` is a group: one to four hexadecimal digits.
pub open spec fn is_group(g: Seq<char>) -> bool {
    g.len() >= 1 && fits_group(g)
}

/// The number that the hexadecimal digits `g` write, most significant first.
pub open spec fn digits_value(g: Seq<char>) -> int
    decreases g.len(),
{
    if g.len() == 0 {
        0
    } else {
        16 * digits_value(g.drop_last()) + match hex_digit(g.last()) {
            Some(d) => d,
            None => 0,
        }
    }
}

/// The pieces of `t` between its colons; a text without colons is one piece.
pub open spec fn split_colons(t: Seq<char>) -> Seq<Seq<char>>
    decreases t.len(),
{
    if t.len() == 0 {
        seq![Seq::<char>::empty()]
    } else {
        let prev = split_colons(t.drop_last());
        if t.last() == ':' {
            prev.push(Seq::<char>::empty())
        } else {
            prev.update(prev.len() - 1, prev.last().push(t.last()))
        }
    }
}

/// The groups that a colon-separated list writes. The empty text is the empty
/// list; otherwise every piece between colons must be a group.
pub open spec fn groups_of(t: Seq<char>) -> Option<Seq<u16>> {
    let p = split_colons(t);
    if t.len() == 0 {
        Some(Seq::<u16>::empty())
    } else if forall|j: int| 0 <= j < p.len() ==> is_group(#[trigger] p[j]) {
        Some(Seq::new(p.len(), |j: int| digits_value(p[j]) as u16))
    } else {
        None
    }
}

/// The position of the first `::` in `t` at or after `i`, or `t.len()` if there is none.
pub open spec fn gap_from(t: Seq<char>, i: int) -> int
    decreases t.len() - i,
{
    if i < 0 || i + 1 >= t.len() {
        t.len() as int
    } else if t[i] == ':' && t[i + 1] == ':' {
        i
    } else {
        gap_from(t, i + 1)
    }
}

/// `n` zero groups.
pub open spec fn zero_groups(n: int) -> Seq<u16> {
    Seq::new(n as nat, |i: int| 0u16)
}

/// The eight groups that the literal `t` writes, or `None` if `t` is no literal.
pub open spec fn literal_groups(t: Seq<char>) -> Option<Seq<u16>> {
    let p = gap_from(t, 0);
    if p >= t.len() {
        match groups_of(t) {
            Some(g) => if g.len() == 8 { Some(g) } else { None },
            None => None,
        }
    } else {
        match (groups_of(t.subrange(0, p)), groups_of(t.subrange(p + 2, t.len() as int))) {
            (Some(h), Some(l)) => if h.len() + l.len() <= 7 {
                Some(h + zero_groups(8 - h.len() - l.len()) + l)
            } else {
                None
            },
            _ => None,
        }
    }
}

/// The 128-bit value of eight groups, the first group the most significant.
pub open spec fn groups_value(g: Seq<u16>) -> u128 {
    (g[0] as u128) << 112 | (g[1] as u128) << 96 | (g[2] as u128) << 80 | (g[3] as u128) << 64
        | (g[4] as u128) << 48 | (g[5] as u128) << 32 | (g[6] as u128) << 16 | (g[7] as u128)
}

/// The value that the literal `t` writes, or `None` if `t` is no literal.
pub open spec fn literal_value(t: Seq<char>) -> Option<u128> {
    match literal_groups(t) {
        Some(g) => Some(groups_value(g)),
        None => None,
    }
}

/// The pieces read so far can still become groups: all but the last are
/// groups, and the last has not yet gone wrong.
pub open spec fn pieces_open(p: Seq<Seq<char>>) -> bool {
    &&& p.len() >= 1
    &&& forall|j: int| 0 <= j < p.len() - 1 ==> is_group(#[trigger] p[j])
    &&& fits_group(p.last())
}

/// A text always splits into at least one piece.
pub proof fn lemma_split_nonempty(t: Seq<char>)
    ensures
        split_colons(t).len() >= 1,
    decreases t.len(),
{
    if t.len() > 0 {
        lemma_split_nonempty(t.drop_last());
    }
}

proof fn lemma_fits_push(g: Seq<char>, c: char)
    ensures
        fits_group(g.push(c)) == (fits_group(g) && g.len() < 4 && hex_digit(c) is Some),
{
    let h = g.push(c);
    if fits_group(g) && g.len() < 4 && hex_digit(c) is Some {
        assert forall|i: int| 0 <= i < h.len() implies (#[trigger] hex_digit(h[i])) is Some by {
            if i < g.len() {
                assert(h[i] == g[i]);
            }
        }
    }
    if fits_group(h) {
        assert(hex_digit(h[g.len() as int]) is Some);
        assert forall|i: int| 0 <= i < g.len() implies (#[trigger] hex_digit(g[i])) is Some by {
            assert(h[i] == g[i]);
        }
    }
}

/// Reads the colon-separated group list `cs[lo..hi]`.
pub fn parse_groups(cs: &Vec<char>, lo: usize, hi: usize) -> (r: Option<Vec<u16>>)
    requires
        lo <= hi <= cs@.len(),
    ensures
        match r {
            Some(v) => groups_of(cs@.subrange(lo as int, hi as int)) == Some(v@),
            None => groups_of(cs@.subrange(lo as int, hi as int)) is None,
        },
{
    let mut done: Vec<u16> = Vec::new();
    if lo == hi {
        assert(done@ =~= Seq::<u16>::empty());
        return Some(done);
    }
    let mut cur: u16 = 0;
    let mut len: usize = 0;
    let mut ok: bool = true;
    let mut i: usize = lo;
    while i < hi
        invariant
            lo <= i <= hi <= cs@.len(),
            ok == pieces_open(split_colons(cs@.subrange(lo as int, i as int))),
            split_colons(cs@.subrange(lo as int, i as int)).len() >= 1,
            ok ==> done@.len() + 1 == split_colons(cs@.subrange(lo as int, i as int)).len(),
            ok ==> forall|j: int| 0 <= j < done@.len() ==> done@[j] == digits_value(
                #[trigger] split_colons(cs@.subrange(lo as int, i as int))[j]) as u16,
            ok ==> split_colons(cs@.subrange(lo as int, i as int)).last().len() == len,
            ok ==> cur == digits_value(split_colons(cs@.subrange(lo as int, i as int)).last()),
            ok ==> len <= 4,
            ok && len == 0 ==> cur == 0,
            ok && len == 1 ==> cur < 16,
            ok && len == 2 ==> cur < 256,
            ok && len == 3 ==> cur < 4096,
        decreases hi - i,
    {
        let ghost t0 = cs@.subrange(lo as int, i as int);
        let ghost t1 = cs@.subrange(lo as int, i as int + 1);
        let ghost p0 = split_colons(t0);
        let ghost p1 = split_colons(t1);
        let c: char = cs[i];
        proof {
            assert(t1.drop_last() =~= t0);
            assert(t1.last() == c);
            lemma_fits_push(p0.last(), c);
        }
        if c == ':' {
            proof {
                assert(p1 == p0.push(Seq::<char>::empty()));
                assert(forall|j: int| 0 <= j < p0.len() ==> p1[j] == p0[j]);
                assert(fits_group(p1.last()));
            }
            if ok && len >= 1 {
                done.push(cur);
                cur = 0;
                len = 0;
                proof {
                    assert(is_group(p0.last()));
                    assert forall|j: int| 0 <= j < p1.len() - 1 implies is_group(
                        #[trigger] p1[j]) by {
                        assert(p1[j] == p0[j]);
                    }
                    assert(pieces_open(p1));
                }
            } else {
                proof {
                    if pieces_open(p1) {
                        assert(is_group(p1[p0.len() - 1]));
                        assert forall|j: int| 0 <= j < p0.len() - 1 implies is_group(
                            #[trigger] p0[j]) by {
                            assert(p1[j] == p0[j]);
                        }
                        assert(false);
                    }
                }
                ok = false;
            }
        } else {
            proof {
                assert(p1 == p0.update(p0.len() - 1, p0.last().push(c)));
                assert(p1.last() == p0.last().push(c));
                assert(forall|j: int| 0 <= j < p0.len() - 1 ==> p1[j] == p0[j]);
                assert(p1.last().drop_last() =~= p0.last());
            }
            let d: Option<u8> = hex_digit_value(c);
            match d {
                Some(v) => {
                    if ok && len < 4 {
                        cur = cur * 16 + v as u16;
                        len = len + 1;
                        proof {
                            assert forall|j: int| 0 <= j < p1.len() - 1 implies is_group(
                                #[trigger] p1[j]) by {
                                assert(p1[j] == p0[j]);
                            }
                            assert(pieces_open(p1));
                        }
                    } else {
                        proof {
                            if pieces_open(p1) {
                                assert forall|j: int| 0 <= j < p0.len() - 1 implies is_group(
                                    #[trigger] p0[j]) by {
                                    assert(p1[j] == p0[j]);
                                }
                                assert(false);
                            }
                        }
                        ok = false;
                    }
                },
                None => {
                    ok = false;
                },
            }
        }
        i += 1;
    }
    let ghost t = cs@.subrange(lo as int, hi as int);
    let ghost p = split_colons(t);
    if ok && len >= 1 {
        done.push(cur);
        proof {
            assert forall|j: int| 0 <= j < p.len() implies is_group(#[trigger] p[j]) by {
                if j == p.len() - 1 {
                    assert(p[j] == p.last());
                }
            }
            assert(done@ =~= Seq::new(p.len(), |j: int| digits_value(p[j]) as u16));
        }
        Some(done)
    } else {
        proof {
            if forall|j: int| 0 <= j < p.len() ==> is_group(#[trigger] p[j]) {
                assert(is_group(p[p.len() - 1]));
                assert(false);
            }
        }
        None
    }
}

/// Finds the first `::` in `cs[lo..hi]`; the result is relative to `lo`.
pub fn find_gap(cs: &Vec<char>, lo: usize, hi: usize) -> (pos: usize)
    requires
        lo <= hi <= cs@.len(),
    ensures
        pos == gap_from(cs@.subrange(lo as int, hi as int), 0),
        pos <= hi - lo,
        pos < hi - lo ==> pos + 2 <= hi - lo,
{
    let ghost t = cs@.subrange(lo as int, hi as int);
    let mut i: usize = lo;
    while i < hi && i + 1 < hi
        invariant
            lo <= i <= hi <= cs@.len(),
            t == cs@.subrange(lo as int, hi as int),
            gap_from(t, 0) == gap_from(t, i - lo),
        decreases hi - i,
    {
        assert(t[i - lo] == cs@[i as int]);
        assert(t[i - lo + 1] == cs@[i + 1]);
        if cs[i] == ':' && cs[i + 1] == ':' {
            return i - lo;
        }
        i += 1;
    }
    hi - lo
}

/// Packs eight groups into a 128-bit value.
pub fn pack_groups(g: &Vec<u16>) -> (v: u128)
    requires
        g@.len() == 8,
    ensures
        v == groups_value(g@),
{
    (g[0] as u128) << 112 | (g[1] as u128) << 96 | (g[2] as u128) << 80 | (g[3] as u128) << 64
        | (g[4] as u128) << 48 | (g[5] as u128) << 32 | (g[6] as u128) << 16 | (g[7] as u128)
}

/// Reads the address literal `cs[lo..hi]`.
pub fn parse_literal(cs: &Vec<char>, lo: usize, hi: usize) -> (r: Option<u128>)
    requires
        lo <= hi <= cs@.len(),
    ensures
        r == literal_value(cs@.subrange(lo as int, hi as int)),
{
    let ghost t = cs@.subrange(lo as int, hi as int);
    let p: usize = find_gap(cs, lo, hi);
    if p >= hi - lo {
        match parse_groups(cs, lo, hi) {
            Some(g) => {
                if g.len() == 8 {
                    Some(pack_groups(&g))
                } else {
                    None
                }
            },
            None => None,
        }
    } else {
        proof {
            assert(t.subrange(0, p as int) =~= cs@.subrange(lo as int, lo + p));
            assert(t.subrange(p + 2, t.len() as int) =~= cs@.subrange(lo + p + 2, hi as int));
        }
        let head: Option<Vec<u16>> = parse_groups(cs, lo, lo + p);
        let tail: Option<Vec<u16>> = parse_groups(cs, lo + p + 2, hi);
        match (head, tail) {
            (Some(h), Some(l)) => {
                if h.len() <= 7 && l.len() <= 7 - h.len() {
                    let mut g: Vec<u16> = h;
                    let ghost h0 = g@;
                    let fill: usize = 8 - g.len() - l.len();
                    let mut k: usize = 0;
                    while k < fill
                        invariant
                            k <= fill,
                            h0.len() + fill + l@.len() == 8,
                            g@ == h0 + zero_groups(k as int),
                        decreases fill - k,
                    {
                        g.push(0u16);
                        k += 1;
                        assert(g@ =~= h0 + zero_groups(k as int));
                    }
                    let mut j: usize = 0;
                    while j < l.len()
                        invariant
                            j <= l@.len(),
                            h0.len() + fill + l@.len() == 8,
                            g@ == h0 + zero_groups(fill as int) + l@.take(j as int),
                        decreases l@.len() - j,
                    {
                        g.push(l[j]);
                        j += 1;
                        assert(g@ =~= h0 + zero_groups(fill as int) + l@.take(j as int));
                    }
                    assert(l@.take(l@.len() as int) =~= l@);
                    Some(pack_groups(&g))
                } else {
                    None
                }
            },
            _ => None,
        }
    }
}

/// The eight 16-bit groups of `v`, the most significant first.
pub open spec fn value_groups(v: u128) -> Seq<u16> {
    seq![
        ((v >> 112) & 0xffff) as u16,
        ((v >> 96) & 0xffff) as u16,
        ((v >> 80) & 0xffff) as u16,
        ((v >> 64) & 0xffff) as u16,
        ((v >> 48) & 0xffff) as u16,
        ((v >> 32) & 0xffff) as u16,
        ((v >> 16) & 0xffff) as u16,
        (v & 0xffff) as u16,
    ]
}

/// Splits a 128-bit value into its eight groups.
pub fn unpack_groups(v: u128) -> (g: Vec<u16>)
    ensures
        g@ == value_groups(v),
{
    let mut g: Vec<u16> = Vec::new();
    g.push(((v >> 112) & 0xffff) as u16);
    g.push(((v >> 96) & 0xffff) as u16);
    g.push(((v >> 80) & 0xffff) as u16);
    g.push(((v >> 64) & 0xffff) as u16);
    g.push(((v >> 48) & 0xffff) as u16);
    g.push(((v >> 32) & 0xffff) as u16);
    g.push(((v >> 16) & 0xffff) as u16);
    g.push((v & 0xffff) as u16);
    assert(g@ =~= value_groups(v));
    g
}

/// Packing the groups of a value gives the value back.
pub proof fn lemma_groups_of_value(v: u128)
    ensures
        groups_value(value_groups(v)) == v,
{
    let a0 = (v >> 112) & 0xffff;
    let a1 = (v >> 96) & 0xffff;
    let a2 = (v >> 80) & 0xffff;
    let a3 = (v >> 64) & 0xffff;
    let a4 = (v >> 48) & 0xffff;
    let a5 = (v >> 32) & 0xffff;
    let a6 = (v >> 16) & 0xffff;
    let a7 = v & 0xffff;
    assert(a0 <= 0xffff && a1 <= 0xffff && a2 <= 0xffff && a3 <= 0xffff && a4 <= 0xffff && a5
        <= 0xffff && a6 <= 0xffff && a7 <= 0xffff) by (bit_vector)
        requires
            a0 == (v >> 112) & 0xffff,
            a1 == (v >> 96) & 0xffff,
            a2 == (v >> 80) & 0xffff,
            a3 == (v >> 64) & 0xffff,
            a4 == (v >> 48) & 0xffff,
            a5 == (v >> 32) & 0xffff,
            a6 == (v >> 16) & 0xffff,
            a7 == v & 0xffff,
    ;
    assert(a0 << 112 | a1 << 96 | a2 << 80 | a3 << 64 | a4 << 48 | a5 << 32 | a6 << 16 | a7 == v)
        by (bit_vector)
        requires
            a0 == (v >> 112) & 0xffff,
            a1 == (v >> 96) & 0xffff,
            a2 == (v >> 80) & 0xffff,
            a3 == (v >> 64) & 0xffff,
            a4 == (v >> 48) & 0xffff,
            a5 == (v >> 32) & 0xffff,
            a6 == (v >> 16) & 0xffff,
            a7 == v & 0xffff,
    ;
    let g = value_groups(v);
    assert(g[0] as u128 == a0 && g[1] as u128 == a1 && g[2] as u128 == a2 && g[3] as u128 == a3);
    assert(g[4] as u128 == a4 && g[5] as u128 == a5 && g[6] as u128 == a6 && g[7] as u128 == a7);
}

} // verus!
