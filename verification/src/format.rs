//! The textual forms that a 128-bit address value is written in.

use vstd::prelude::*;
use crate::literal::{unpack_groups, value_groups};
use crate::text::{hex_char, hex_char_of};

verus! {

/// A group in as few lowercase hexadecimal digits as it takes.
pub open spec fn short_hex(g: u16) -> Seq<char> {
    if g < 0x10 {
        seq![hex_char(g as int)]
    } else if g < 0x100 {
        seq![hex_char(g as int / 16), hex_char(g as int % 16)]
    } else if g < 0x1000 {
        seq![hex_char(g as int / 256), hex_char(g as int / 16 % 16), hex_char(g as int % 16)]
    } else {
        seq![
            hex_char(g as int / 4096),
            hex_char(g as int / 256 % 16),
            hex_char(g as int / 16 % 16),
            hex_char(g as int % 16),
        ]
    }
}

/// A group in exactly four lowercase hexadecimal digits.
pub open spec fn full_hex(g: u16) -> Seq<char> {
    seq![
        hex_char(g as int / 4096),
        hex_char(g as int / 256 % 16),
        hex_char(g as int / 16 % 16),
        hex_char(g as int % 16),
    ]
}

/// A group in its four-digit form where `full` is set, else in its short form.
pub open spec fn group_text(g: u16, full: bool) -> Seq<char> {
    if full {
        full_hex(g)
    } else {
        short_hex(g)
    }
}

/// The groups, each in the chosen form, joined by single colons.
pub open spec fn join_groups(g: Seq<u16>, full: bool) -> Seq<char>
    decreases g.len(),
{
    if g.len() == 0 {
        Seq::<char>::empty()
    } else if g.len() == 1 {
        group_text(g[0], full)
    } else {
        join_groups(g.drop_last(), full) + seq![':'] + group_text(g.last(), full)
    }
}

/// The groups in their short form, joined by single colons.
pub open spec fn join_short(g: Seq<u16>) -> Seq<char> {
    join_groups(g, false)
}

/// The groups in their four-digit form, joined by single colons.
pub open spec fn join_full(g: Seq<u16>) -> Seq<char> {
    join_groups(g, true)
}

/// The groups in their four-digit form, with nothing between them.
pub open spec fn concat_full(g: Seq<u16>) -> Seq<char>
    decreases g.len(),
{
    if g.len() == 0 {
        Seq::<char>::empty()
    } else {
        concat_full(g.drop_last()) + full_hex(g.last())
    }
}

/// How many consecutive zero groups start at position `i`.
pub open spec fn zero_run(g: Seq<u16>, i: int) -> int
    decreases g.len() - i,
{
    if i < 0 || i >= g.len() || g[i] != 0 {
        0
    } else {
        1 + zero_run(g, i + 1)
    }
}

/// The start and length of the longest run of zero groups at or after `i`,
/// the earliest one among equals; a length of zero where there is none.
pub open spec fn longest_run_from(g: Seq<u16>, i: int) -> (int, int)
    decreases g.len() - i,
{
    if i < 0 || i >= g.len() {
        (0, 0)
    } else {
        let rest = longest_run_from(g, i + 1);
        let n = zero_run(g, i);
        if n >= 1 && n >= rest.1 {
            (i, n)
        } else {
            rest
        }
    }
}

/// The shortened form of `v`: the longest run of two or more zero groups
/// is written `::`, and each other group drops its leading zeros.
pub open spec fn compressed_text(v: u128) -> Seq<char> {
    let g = value_groups(v);
    let run = longest_run_from(g, 0);
    if run.1 >= 2 {
        join_short(g.subrange(0, run.0)) + seq![':', ':'] + join_short(
            g.subrange(run.0 + run.1, 8),
        )
    } else {
        join_short(g)
    }
}

/// The full form of `v`: eight groups of four digits.
pub open spec fn exploded_text(v: u128) -> Seq<char> {
    join_full(value_groups(v))
}

/// The 32 hexadecimal digits of `v`.
pub open spec fn hex_text(v: u128) -> Seq<char> {
    concat_full(value_groups(v))
}

/// The 128 binary digits of `v`, the most significant first.
pub open spec fn binary_text(v: u128) -> Seq<char> {
    Seq::new(128, |i: int| if (v >> ((127 - i) as u128)) & 1 == 1 { '1' } else { '0' })
}

fn push_short(out: &mut Vec<char>, g: u16)
    ensures
        final(out)@ == old(out)@ + short_hex(g),
{
    if g >= 0x1000 {
        out.push(hex_char_of((g / 4096) as u8));
    }
    if g >= 0x100 {
        out.push(hex_char_of((g / 256 % 16) as u8));
    }
    if g >= 0x10 {
        out.push(hex_char_of((g / 16 % 16) as u8));
    }
    out.push(hex_char_of((g % 16) as u8));
    assert(out@ =~= old(out)@ + short_hex(g));
}

fn push_full(out: &mut Vec<char>, g: u16)
    ensures
        final(out)@ == old(out)@ + full_hex(g),
{
    out.push(hex_char_of((g / 4096) as u8));
    out.push(hex_char_of((g / 256 % 16) as u8));
    out.push(hex_char_of((g / 16 % 16) as u8));
    out.push(hex_char_of((g % 16) as u8));
    assert(out@ =~= old(out)@ + full_hex(g));
}

fn push_join_short(out: &mut Vec<char>, g: &Vec<u16>, lo: usize, hi: usize)
    requires
        lo <= hi <= g@.len(),
    ensures
        final(out)@ == old(out)@ + join_short(g@.subrange(lo as int, hi as int)),
{
    let mut i: usize = lo;
    assert(out@ =~= old(out)@ + join_short(g@.subrange(lo as int, lo as int)));
    while i < hi
        invariant
            lo <= i <= hi <= g@.len(),
            out@ == old(out)@ + join_short(g@.subrange(lo as int, i as int)),
        decreases hi - i,
    {
        let ghost before = out@;
        if i > lo {
            out.push(':');
        }
        push_short(out, g[i]);
        proof {
            let s1 = g@.subrange(lo as int, i + 1);
            assert(s1.drop_last() =~= g@.subrange(lo as int, i as int));
            assert(s1.last() == g@[i as int]);
            assert(out@ =~= old(out)@ + join_short(s1));
        }
        i += 1;
    }
}

fn push_join_full(out: &mut Vec<char>, g: &Vec<u16>, sep: bool)
    ensures
        sep ==> final(out)@ == old(out)@ + join_full(g@),
        !sep ==> final(out)@ == old(out)@ + concat_full(g@),
{
    let mut i: usize = 0;
    assert(g@.take(0) =~= Seq::<u16>::empty());
    assert(out@ =~= old(out)@ + join_full(g@.take(0)));
    assert(out@ =~= old(out)@ + concat_full(g@.take(0)));
    while i < g.len()
        invariant
            i <= g@.len(),
            sep ==> out@ == old(out)@ + join_full(g@.take(i as int)),
            !sep ==> out@ == old(out)@ + concat_full(g@.take(i as int)),
        decreases g@.len() - i,
    {
        if sep && i > 0 {
            out.push(':');
        }
        push_full(out, g[i]);
        proof {
            let s1 = g@.take(i + 1);
            assert(s1.drop_last() =~= g@.take(i as int));
            assert(s1.last() == g@[i as int]);
            if sep {
                assert(out@ =~= old(out)@ + join_full(s1));
            } else {
                assert(out@ =~= old(out)@ + concat_full(s1));
            }
        }
        i += 1;
    }
    assert(g@.take(g@.len() as int) =~= g@);
}

/// Finds the longest run of zero groups, the earliest among equals.
fn find_longest_run(g: &Vec<u16>) -> (run: (usize, usize))
    requires
        g@.len() == 8,
    ensures
        (run.0 as int, run.1 as int) == longest_run_from(g@, 0),
        run.0 + run.1 <= 8,
{
    let mut i: usize = 8;
    let mut here: usize = 0;
    let mut best: (usize, usize) = (0, 0);
    while i > 0
        invariant
            i <= 8,
            g@.len() == 8,
            here == zero_run(g@, i as int),
            here <= 8 - i,
            (best.0 as int, best.1 as int) == longest_run_from(g@, i as int),
            best.0 + best.1 <= 8,
        decreases i,
    {
        i -= 1;
        if g[i] == 0 {
            here = here + 1;
        } else {
            here = 0;
        }
        if here >= 1 && here >= best.1 {
            best = (i, here);
        }
    }
    best
}

/// Writes `v` in its shortened form.
pub fn write_compressed(v: u128) -> (out: Vec<char>)
    ensures
        out@ == compressed_text(v),
{
    let g: Vec<u16> = unpack_groups(v);
    let run: (usize, usize) = find_longest_run(&g);
    let mut out: Vec<char> = Vec::new();
    if run.1 >= 2 {
        push_join_short(&mut out, &g, 0, run.0);
        out.push(':');
        out.push(':');
        push_join_short(&mut out, &g, run.0 + run.1, 8);
        assert(out@ =~= compressed_text(v));
    } else {
        push_join_short(&mut out, &g, 0, 8);
        assert(g@.subrange(0, 8) =~= g@);
        assert(out@ =~= compressed_text(v));
    }
    out
}

/// Writes `v` in its full form.
pub fn write_exploded(v: u128) -> (out: Vec<char>)
    ensures
        out@ == exploded_text(v),
{
    let g: Vec<u16> = unpack_groups(v);
    let mut out: Vec<char> = Vec::new();
    push_join_full(&mut out, &g, true);
    assert(out@ =~= exploded_text(v));
    out
}

/// Writes the 32 hexadecimal digits of `v`.
pub fn write_hex(v: u128) -> (out: Vec<char>)
    ensures
        out@ == hex_text(v),
{
    let g: Vec<u16> = unpack_groups(v);
    let mut out: Vec<char> = Vec::new();
    push_join_full(&mut out, &g, false);
    assert(out@ =~= hex_text(v));
    out
}

/// Writes the 128 binary digits of `v`.
pub fn write_binary(v: u128) -> (out: Vec<char>)
    ensures
        out@ == binary_text(v),
{
    let mut out: Vec<char> = Vec::new();
    let mut i: u128 = 0;
    while i < 128
        invariant
            i <= 128,
            out@.len() == i,
            forall|k: int| 0 <= k < i ==> out@[k] == binary_text(v)[k],
        decreases 128 - i,
    {
        let bit: u128 = (v >> (127 - i)) & 1;
        out.push(if bit == 1 { '1' } else { '0' });
        i += 1;
    }
    assert(out@ =~= binary_text(v));
    out
}

} // verus!
