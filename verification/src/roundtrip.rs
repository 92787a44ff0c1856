//! Reading back what was written: the shortened form of every value is a
//! literal of that value, and an address survives the way through its text.

use vstd::prelude::*;
use crate::address::{parse_address, with_zone};
use crate::format::{
    compressed_text, exploded_text, group_text, join_groups, longest_run_from, zero_run,
};
use crate::literal::{
    digits_value, gap_from, groups_of, is_group, lemma_groups_of_value, lemma_split_nonempty,
    literal_groups, literal_value, split_colons, value_groups, zero_groups,
};
use crate::text::{first_pos, hex_char, hex_digit, lemma_first_pos};

verus! {

/// `u` holds no colon.
pub open spec fn colon_free(u: Seq<char>) -> bool {
    forall|i: int| 0 <= i < u.len() ==> #[trigger] u[i] != ':'
}

/// `u` holds no percent sign.
pub open spec fn percent_free(u: Seq<char>) -> bool {
    forall|i: int| 0 <= i < u.len() ==> #[trigger] u[i] != '%'
}

/// Two colons stand at positions `i` and `i + 1` of `t`.
pub open spec fn gap_at(t: Seq<char>, i: int) -> bool {
    t[i] == ':' && t[i + 1] == ':'
}

/// `t` neither starts nor ends with a colon and holds no two colons in a
/// row, and no percent sign.
pub open spec fn tidy(t: Seq<char>) -> bool {
    &&& forall|i: int| 0 <= i < t.len() - 1 ==> !#[trigger] gap_at(t, i)
    &&& t.len() > 0 ==> t[0] != ':' && t.last() != ':'
    &&& percent_free(t)
}

proof fn lemma_split_append(t: Seq<char>, u: Seq<char>)
    requires
        colon_free(u),
    ensures
        split_colons(t).len() >= 1,
        split_colons(t + u) == split_colons(t).update(
            split_colons(t).len() - 1,
            split_colons(t).last() + u,
        ),
    decreases u.len(),
{
    lemma_split_nonempty(t);
    let p = split_colons(t);
    if u.len() == 0 {
        assert(t + u =~= t);
        assert(p.last() + u =~= p.last());
        assert(p.update(p.len() - 1, p.last()) =~= p);
    } else {
        let u0 = u.drop_last();
        assert forall|i: int| 0 <= i < u0.len() implies #[trigger] u0[i] != ':' by {
            assert(u0[i] == u[i]);
        }
        lemma_split_append(t, u0);
        assert((t + u).drop_last() =~= t + u0);
        assert((t + u).last() == u[u.len() - 1]);
        let q = split_colons(t + u0);
        assert(q.last().push(u.last()) =~= p.last() + u);
        assert(q.update(q.len() - 1, q.last().push(u.last())) =~= p.update(
            p.len() - 1,
            p.last() + u,
        ));
    }
}

proof fn lemma_digits_push(s: Seq<char>, c: char)
    ensures
        digits_value(s.push(c)) == 16 * digits_value(s) + match hex_digit(c) {
            Some(d) => d,
            None => 0,
        },
{
    assert(s.push(c).drop_last() =~= s);
}

proof fn lemma_hex_char(d: int)
    requires
        0 <= d < 16,
    ensures
        hex_digit(hex_char(d)) == Some(d),
        hex_char(d) != ':',
        hex_char(d) != '%',
{
}

/// Either form of a group is a group that writes it, without colon or
/// percent sign.
pub proof fn lemma_group_text(g: u16, full: bool)
    ensures
        is_group(group_text(g, full)),
        colon_free(group_text(g, full)),
        percent_free(group_text(g, full)),
        digits_value(group_text(g, full)) == g,
{
    let a = hex_char(g as int / 4096);
    let b = hex_char(g as int / 256 % 16);
    let c = hex_char(g as int / 16 % 16);
    let d = hex_char(g as int % 16);
    lemma_hex_char(g as int / 4096);
    lemma_hex_char(g as int / 256 % 16);
    lemma_hex_char(g as int / 16 % 16);
    lemma_hex_char(g as int % 16);
    let e = Seq::<char>::empty();
    assert(digits_value(e) == 0);
    let s = group_text(g, full);
    if full {
        assert(s =~= e.push(a).push(b).push(c).push(d));
        lemma_digits_push(e, a);
        lemma_digits_push(e.push(a), b);
        lemma_digits_push(e.push(a).push(b), c);
        lemma_digits_push(e.push(a).push(b).push(c), d);
    } else if g < 0x10 {
        assert(s =~= e.push(d));
        lemma_digits_push(e, d);
    } else if g < 0x100 {
        assert(g as int / 16 % 16 == g as int / 16);
        assert(s =~= e.push(c).push(d));
        lemma_digits_push(e, c);
        lemma_digits_push(e.push(c), d);
    } else if g < 0x1000 {
        assert(g as int / 256 % 16 == g as int / 256);
        assert(s =~= e.push(b).push(c).push(d));
        lemma_digits_push(e, b);
        lemma_digits_push(e.push(b), c);
        lemma_digits_push(e.push(b).push(c), d);
    } else {
        assert(s =~= e.push(a).push(b).push(c).push(d));
        lemma_digits_push(e, a);
        lemma_digits_push(e.push(a), b);
        lemma_digits_push(e.push(a).push(b), c);
        lemma_digits_push(e.push(a).push(b).push(c), d);
    }
    assert forall|i: int| 0 <= i < s.len() implies (#[trigger] hex_digit(s[i])) is Some by {}
}

proof fn lemma_split_join(g: Seq<u16>, full: bool)
    requires
        g.len() >= 1,
    ensures
        split_colons(join_groups(g, full)) == Seq::new(g.len(), |j: int| group_text(g[j], full)),
        join_groups(g, full).len() >= 1,
    decreases g.len(),
{
    let sh = group_text(g.last(), full);
    lemma_group_text(g.last(), full);
    let want = Seq::new(g.len(), |j: int| group_text(g[j], full));
    if g.len() == 1 {
        let e = Seq::<char>::empty();
        lemma_split_append(e, sh);
        assert(e + sh =~= sh);
        assert(split_colons(e) =~= seq![e]);
        assert(split_colons(e).update(0, e + sh) =~= want);
    } else {
        let dl = g.drop_last();
        lemma_split_join(dl, full);
        let j0 = join_groups(dl, full);
        let jc = j0 + seq![':'];
        assert(jc.drop_last() =~= j0);
        assert(jc.last() == ':');
        let e = Seq::<char>::empty();
        assert(split_colons(jc) == split_colons(j0).push(e));
        lemma_split_append(jc, sh);
        assert(e + sh =~= sh);
        assert(join_groups(g, full) == jc + sh);
        assert(split_colons(jc).update(split_colons(jc).len() - 1, sh) =~= want);
    }
}

/// A list of groups, written in either form and joined by colons, reads
/// back as the same list.
pub proof fn lemma_groups_of_join(g: Seq<u16>, full: bool)
    ensures
        groups_of(join_groups(g, full)) == Some(g),
{
    if g.len() == 0 {
        assert(g =~= Seq::<u16>::empty());
    } else {
        lemma_split_join(g, full);
        let p = split_colons(join_groups(g, full));
        assert forall|j: int| 0 <= j < p.len() implies is_group(#[trigger] p[j]) by {
            lemma_group_text(g[j], full);
        }
        assert forall|j: int| 0 <= j < p.len() implies digits_value(p[j]) as u16 == g[j] by {
            lemma_group_text(g[j], full);
        }
        assert(Seq::new(p.len(), |j: int| digits_value(p[j]) as u16) =~= g);
    }
}

proof fn lemma_join_tidy(g: Seq<u16>, full: bool)
    ensures
        tidy(join_groups(g, full)),
    decreases g.len(),
{
    if g.len() >= 1 {
        let sh = group_text(g.last(), full);
        lemma_group_text(g.last(), full);
        if g.len() == 1 {
            let t = join_groups(g, full);
            assert(t == sh);
            assert forall|i: int| 0 <= i < t.len() - 1 implies !#[trigger] gap_at(t, i) by {
                assert(sh[i] != ':');
            }
            assert(sh[0] != ':' && sh[sh.len() - 1] != ':');
        } else {
            let dl = g.drop_last();
            lemma_join_tidy(dl, full);
            lemma_split_join(dl, full);
            let j0 = join_groups(dl, full);
            let t = join_groups(g, full);
            assert(t == j0 + seq![':'] + sh);
            assert forall|i: int| 0 <= i < t.len() implies #[trigger] t[i] != '%' by {
                if i < j0.len() {
                    assert(t[i] == j0[i]);
                } else if i > j0.len() {
                    assert(t[i] == sh[i - j0.len() - 1]);
                }
            }
            assert forall|i: int| 0 <= i < t.len() - 1 implies !#[trigger] gap_at(t, i) by {
                if i + 1 < j0.len() {
                    assert(t[i] == j0[i] && t[i + 1] == j0[i + 1]);
                    assert(!gap_at(j0, i));
                } else if i + 1 == j0.len() {
                    assert(t[i] == j0[j0.len() - 1]);
                } else {
                    assert(t[i + 1] == sh[i - j0.len()]);
                }
            }
            assert(t[0] == j0[0]);
            assert(t[t.len() - 1] == sh[sh.len() - 1]);
        }
    }
}

proof fn lemma_gap_none(t: Seq<char>, k: int)
    requires
        0 <= k <= t.len(),
        forall|i: int| k <= i < t.len() - 1 ==> !#[trigger] gap_at(t, i),
    ensures
        gap_from(t, k) == t.len(),
    decreases t.len() - k,
{
    if k + 1 < t.len() {
        assert(!gap_at(t, k));
        lemma_gap_none(t, k + 1);
    }
}

proof fn lemma_gap_found(t: Seq<char>, k: int, p: int)
    requires
        0 <= k <= p,
        p + 1 < t.len(),
        gap_at(t, p),
        forall|i: int| k <= i < p ==> !#[trigger] gap_at(t, i),
    ensures
        gap_from(t, k) == p,
    decreases p - k,
{
    if k < p {
        assert(!gap_at(t, k));
        lemma_gap_found(t, k + 1, p);
    }
}

proof fn lemma_zero_run(g: Seq<u16>, i: int)
    requires
        0 <= i <= g.len(),
    ensures
        0 <= zero_run(g, i) <= g.len() - i,
        forall|j: int| i <= j < i + zero_run(g, i) ==> #[trigger] g[j] == 0,
    decreases g.len() - i,
{
    if i < g.len() && g[i] == 0 {
        lemma_zero_run(g, i + 1);
    }
}

proof fn lemma_longest_run(g: Seq<u16>, i: int)
    requires
        0 <= i <= g.len(),
    ensures
        longest_run_from(g, i).1 >= 0,
        longest_run_from(g, i).1 >= 1 ==> i <= longest_run_from(g, i).0 < g.len()
            && longest_run_from(g, i).1 == zero_run(g, longest_run_from(g, i).0),
    decreases g.len() - i,
{
    if i < g.len() {
        lemma_longest_run(g, i + 1);
        lemma_zero_run(g, i);
    }
}

/// The shortened form of a value is a literal of that value.
pub proof fn lemma_compressed_parses(v: u128)
    ensures
        literal_value(compressed_text(v)) == Some(v),
        percent_free(compressed_text(v)),
{
    let g = value_groups(v);
    let full = false;
    let run = longest_run_from(g, 0);
    lemma_longest_run(g, 0);
    lemma_groups_of_value(v);
    if run.1 >= 2 {
        let s = run.0;
        let n = run.1;
        lemma_zero_run(g, s);
        let head = g.subrange(0, s);
        let tail = g.subrange(s + n, 8);
        let ht = join_groups(head, full);
        let tt = join_groups(tail, full);
        let text = ht + seq![':', ':'] + tt;
        assert(text == compressed_text(v));
        lemma_join_tidy(head, full);
        lemma_join_tidy(tail, full);
        let p = ht.len() as int;
        assert(text[p] == ':' && text[p + 1] == ':');
        assert forall|i: int| 0 <= i < p implies !#[trigger] gap_at(text, i) by {
            if i + 1 < p {
                assert(text[i] == ht[i] && text[i + 1] == ht[i + 1]);
                assert(!gap_at(ht, i));
            } else {
                assert(text[i] == ht[p - 1]);
            }
        }
        lemma_gap_found(text, 0, p);
        assert(text.subrange(0, p) =~= ht);
        assert(text.subrange(p + 2, text.len() as int) =~= tt);
        lemma_groups_of_join(head, full);
        lemma_groups_of_join(tail, full);
        assert(head + zero_groups(8 - head.len() - tail.len()) + tail =~= g);
        assert(literal_groups(text) == Some(g));
        assert forall|i: int| 0 <= i < text.len() implies #[trigger] text[i] != '%' by {
            if i < p {
                assert(text[i] == ht[i]);
            } else if i >= p + 2 {
                assert(text[i] == tt[i - p - 2]);
            }
        }
    } else {
        let text = join_groups(g, full);
        lemma_join_tidy(g, full);
        lemma_gap_none(text, 0);
        lemma_groups_of_join(g, full);
        assert(literal_groups(text) == Some(g));
    }
}

/// The full form of a value is a literal of that value.
pub proof fn lemma_exploded_parses(v: u128)
    ensures
        literal_value(exploded_text(v)) == Some(v),
        percent_free(exploded_text(v)),
{
    let g = value_groups(v);
    let text = join_groups(g, true);
    lemma_groups_of_value(v);
    lemma_join_tidy(g, true);
    lemma_gap_none(text, 0);
    lemma_groups_of_join(g, true);
    assert(literal_groups(text) == Some(g));
}

/// An address read back from its shortened form is the same address: the
/// same 128-bit value and the same zone.
pub proof fn lemma_address_round_trip(v: u128, zone: Option<Seq<char>>)
    requires
        zone matches Some(z) ==> z.len() > 0,
    ensures
        parse_address(with_zone(compressed_text(v), zone)) == Some((v, zone)),
        parse_address(with_zone(compressed_text(v), zone)) matches Some(a) && with_zone(
            exploded_text(a.0),
            a.1,
        ) == with_zone(exploded_text(v), zone),
{
    let body = compressed_text(v);
    lemma_compressed_parses(v);
    let text = with_zone(body, zone);
    lemma_first_pos(text, '%', 0);
    let p = first_pos(text, '%');
    match zone {
        Some(z) => {
            let n = body.len() as int;
            assert(text[n] == '%');
            assert forall|j: int| 0 <= j < n implies text[j] != '%' by {
                assert(text[j] == body[j]);
            }
            assert(p == n);
            assert(text.subrange(0, p) =~= body);
            assert(text.subrange(p + 1, text.len() as int) =~= z);
        },
        None => {
            assert(p == text.len());
        },
    }
}

} // verus!
