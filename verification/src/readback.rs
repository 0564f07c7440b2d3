//! Reading back what was written: an expression in canonical form, written out
//! and read again, is the same expression.

use vstd::prelude::*;
use vstd::seq_lib::lemma_sorted_unique;
use vstd::utf8::is_ascii_chars;
use crate::hostlist::{
    canon_entries, canonical_entries, entry_error, expression_text, first_entry_error,
    lemma_shape_index, merge_entries, shape_index,
};
use crate::hostlistelem::{
    canon_parts, checked_cardinality, first_pair_error, first_part_error, part_text, parts_text,
    shapes, slot_count,
};
use crate::order::{entry_le, lemma_entry_le_total, sorted};
use crate::parser::{
    blanks_end, digits_end, entries_from, is_blank, is_name_char, is_name_text, item_at,
    items_from, name_end, no_text_twice, number_at, pieces_from,
};
use crate::parser::parse_expression;
use crate::range::{canonical, joined_text, lemma_canon_is, lemma_canonical_prefix};
use crate::token::Part;
use crate::simplerange::interval_text;
use crate::text::{decimal, is_digit, lemma_decimal_digits, lemma_decimal_round_trip};

verus! {

/// Whether text `t` stands in `s` at place `i`.
pub open spec fn text_at(s: Seq<char>, i: int, t: Seq<char>) -> bool {
    0 <= i && i + t.len() <= s.len() && s.subrange(i, i + t.len()) == t
}

/// A text made of two stands at a place where its first part stands there and
/// its second part right after.
pub proof fn lemma_text_at_split(s: Seq<char>, i: int, a: Seq<char>, b: Seq<char>)
    requires
        text_at(s, i, a + b),
    ensures
        text_at(s, i, a),
        text_at(s, i + a.len(), b),
{
    let t = a + b;
    assert(s.subrange(i, i + a.len()) =~= a) by {
        assert forall|k: int| 0 <= k < a.len() implies s.subrange(i, i + a.len())[k] == a[k] by {
            assert(s.subrange(i, i + t.len())[k] == t[k]);
        }
    }
    assert(s.subrange(i + a.len(), i + a.len() + b.len()) =~= b) by {
        assert forall|k: int| 0 <= k < b.len() implies s.subrange(
            i + a.len(),
            i + a.len() + b.len(),
        )[k] == b[k] by {
            assert(s.subrange(i, i + t.len())[a.len() + k] == t[a.len() + k]);
        }
    }
}

/// The character of a text that stands in `s`.
pub proof fn lemma_text_at_char(s: Seq<char>, i: int, t: Seq<char>, k: int)
    requires
        text_at(s, i, t),
        0 <= k < t.len(),
    ensures
        s[i + k] == t[k],
{
    assert(s.subrange(i, i + t.len())[k] == s[i + k]);
}

/// A run of digits ends where the first character that is no digit stands.
proof fn lemma_digits_end_is(s: Seq<char>, i: int, e: int)
    requires
        0 <= i <= e <= s.len(),
        forall|m: int| i <= m < e ==> is_digit(#[trigger] s[m]),
        e == s.len() || !is_digit(s[e]),
    ensures
        digits_end(s, i) == e,
    decreases e - i,
{
    if i < e {
        lemma_digits_end_is(s, i + 1, e);
    }
}

/// A number that is written at `i`, with no digit after it, is read there.
pub proof fn lemma_number_reads_back(s: Seq<char>, i: int, n: u32)
    requires
        text_at(s, i, decimal(n as nat)),
        i + decimal(n as nat).len() == s.len() || !is_digit(s[i + decimal(n as nat).len()]),
    ensures
        number_at(s, i) == Some((n, i + decimal(n as nat).len())),
{
    let d = decimal(n as nat);
    let e = i + d.len();
    lemma_decimal_digits(n as nat);
    assert forall|m: int| i <= m < e implies is_digit(#[trigger] s[m]) by {
        lemma_text_at_char(s, i, d, m - i);
        assert(is_digit(d[m - i]));
    }
    lemma_digits_end_is(s, i, e);
    lemma_decimal_round_trip(n as nat);
}

/// Bounds that are written at `i`, with a comma or a closing bracket after
/// them, are read there.
pub proof fn lemma_item_reads_back(s: Seq<char>, i: int, lo: u32, hi: u32)
    requires
        lo <= hi,
        text_at(s, i, interval_text(lo, hi)),
        i + interval_text(lo, hi).len() < s.len(),
        s[i + interval_text(lo, hi).len()] == ',' || s[i + interval_text(lo, hi).len()] == ']',
    ensures
        item_at(s, i) == Some(((lo, hi), i + interval_text(lo, hi).len())),
{
    let t = interval_text(lo, hi);
    let a = decimal(lo as nat);
    if lo == hi {
        lemma_number_reads_back(s, i, lo);
    } else {
        let b = decimal(hi as nat);
        assert(t == (a + seq!['-']) + b);
        lemma_text_at_split(s, i, a + seq!['-'], b);
        lemma_text_at_split(s, i, a, seq!['-']);
        lemma_text_at_char(s, i + a.len(), seq!['-'], 0);
        let j = i + a.len();
        assert(s[j] == '-');
        lemma_number_reads_back(s, i, lo);
        assert(t.len() == a.len() + 1 + b.len());
        lemma_number_reads_back(s, j + 1, hi);
    }
}

/// The writing of a number is not empty; nor is that of bounds.
proof fn lemma_interval_text_len(lo: u32, hi: u32)
    ensures
        interval_text(lo, hi).len() >= 1,
{
    lemma_decimal_digits(lo as nat);
}

/// Intervals written with commas between them: the first, a comma, the rest.
proof fn lemma_joined_front(ivs: Seq<(u32, u32)>)
    requires
        ivs.len() >= 2,
    ensures
        joined_text(ivs) == interval_text(ivs[0].0, ivs[0].1) + seq![','] + joined_text(
            ivs.drop_first(),
        ),
    decreases ivs.len(),
{
    let init = ivs.drop_last();
    let rest = ivs.drop_first();
    let last = interval_text(ivs.last().0, ivs.last().1);
    let first = interval_text(ivs[0].0, ivs[0].1);
    assert(init[0] == ivs[0]);
    assert(rest.last() == ivs.last());
    if ivs.len() == 2 {
        assert(rest[0] == ivs[1]);
        assert(joined_text(init) == first);
        assert(joined_text(rest) == last);
    } else {
        lemma_joined_front(init);
        assert(rest.drop_last() =~= init.drop_first());
        assert(joined_text(rest) == joined_text(rest.drop_last()) + seq![','] + last);
        assert(joined_text(ivs) =~= first + seq![','] + joined_text(rest));
    }
}

/// The inside of a bracket group that is written at `i`, with its closing
/// bracket, is read there.
pub proof fn lemma_items_read_back(
    s: Seq<char>,
    i: int,
    ivs: Seq<(u32, u32)>,
    acc: Seq<(u32, u32)>,
)
    requires
        ivs.len() >= 1,
        forall|k: int| 0 <= k < ivs.len() ==> (#[trigger] ivs[k]).0 <= ivs[k].1,
        text_at(s, i, joined_text(ivs) + seq![']']),
    ensures
        items_from(s, i, acc) == Some((acc + ivs, i + joined_text(ivs).len() + 1)),
    decreases ivs.len(),
{
    let first = interval_text(ivs[0].0, ivs[0].1);
    lemma_interval_text_len(ivs[0].0, ivs[0].1);
    let j = i + first.len();
    if ivs.len() == 1 {
        assert(joined_text(ivs) == first);
        lemma_text_at_split(s, i, first, seq![']']);
        lemma_text_at_char(s, j, seq![']'], 0);
        lemma_item_reads_back(s, i, ivs[0].0, ivs[0].1);
        assert(acc.push(ivs[0]) =~= acc + ivs);
    } else {
        let rest = ivs.drop_first();
        lemma_joined_front(ivs);
        let tail = joined_text(rest) + seq![']'];
        assert(joined_text(ivs) + seq![']'] =~= (first + seq![',']) + tail);
        lemma_text_at_split(s, i, first + seq![','], tail);
        lemma_text_at_split(s, i, first, seq![',']);
        lemma_text_at_char(s, j, seq![','], 0);
        lemma_item_reads_back(s, i, ivs[0].0, ivs[0].1);
        assert forall|k: int| 0 <= k < rest.len() implies (#[trigger] rest[k]).0 <= rest[k].1 by {
            assert(rest[k] == ivs[k + 1]);
        }
        lemma_items_read_back(s, j + 1, rest, acc.push(ivs[0]));
        assert(acc.push(ivs[0]) + rest =~= acc + ivs);
    }
}

/// Whether the piece is as the canonical form has it: text as it stands in a
/// name, or a set of numbers that is not empty and in canonical form.
pub open spec fn is_canonical_part(p: Part) -> bool {
    match p {
        Part::Text(t) => is_name_text(t),
        Part::Numbers(ivs) => ivs.len() > 0 && canonical(ivs),
    }
}

/// Whether the pieces are as they follow one another in an entry of the
/// canonical form: each is canonical, and no text follows a text.
pub open spec fn are_canonical_parts(ps: Seq<Part>) -> bool {
    &&& forall|k: int| 0 <= k < ps.len() ==> is_canonical_part(#[trigger] ps[k])
    &&& no_text_twice(ps)
}

/// A run of name characters ends where the first character that is none stands.
proof fn lemma_name_end_is(s: Seq<char>, i: int, e: int)
    requires
        0 <= i <= e <= s.len(),
        forall|m: int| i <= m < e ==> is_name_char(#[trigger] s[m]),
        e == s.len() || !is_name_char(s[e]),
    ensures
        name_end(s, i) == e,
    decreases e - i,
{
    if i < e {
        lemma_name_end_is(s, i + 1, e);
    }
}

/// Pieces written one after the other: the first, then the rest.
proof fn lemma_parts_front(ps: Seq<Part>)
    requires
        ps.len() >= 1,
    ensures
        parts_text(ps) == part_text(ps[0]) + parts_text(ps.drop_first()),
    decreases ps.len(),
{
    let init = ps.drop_last();
    let rest = ps.drop_first();
    if ps.len() == 1 {
        assert(parts_text(init) =~= Seq::<char>::empty());
        assert(parts_text(rest) =~= Seq::<char>::empty());
        assert(ps.last() == ps[0]);
        assert(parts_text(ps) =~= part_text(ps[0]) + parts_text(rest));
    } else {
        lemma_parts_front(init);
        assert(init[0] == ps[0]);
        assert(rest.drop_last() =~= init.drop_first());
        assert(rest.last() == ps.last());
        assert(parts_text(ps) =~= part_text(ps[0]) + parts_text(rest));
    }
}

/// The pieces of an entry that are written at `i`, with a comma or the end of
/// the text after them, are read there.
pub proof fn lemma_pieces_read_back(s: Seq<char>, i: int, ps: Seq<Part>, acc: Seq<Part>)
    requires
        are_canonical_parts(ps),
        text_at(s, i, parts_text(ps)),
        i + parts_text(ps).len() == s.len() || s[i + parts_text(ps).len()] == ',',
    ensures
        pieces_from(s, i, acc) == Some((acc + ps, i + parts_text(ps).len())),
    decreases ps.len(),
{
    if ps.len() == 0 {
        assert(parts_text(ps) =~= Seq::<char>::empty());
        assert(acc + ps =~= acc);
    } else {
        let rest = ps.drop_first();
        lemma_parts_front(ps);
        let first = part_text(ps[0]);
        let tail = parts_text(rest);
        lemma_text_at_split(s, i, first, tail);
        assert(is_canonical_part(ps[0]));
        assert(are_canonical_parts(rest)) by {
            assert forall|k: int| 0 <= k < rest.len() implies is_canonical_part(
                #[trigger] rest[k],
            ) by {
                assert(rest[k] == ps[k + 1]);
                assert(is_canonical_part(ps[k + 1]));
            }
            assert forall|k: int| 0 <= k < rest.len() - 1 implies !((#[trigger] rest[k]) is Text
                && rest[k + 1] is Text) by {
                assert(rest[k] == ps[k + 1]);
                assert(rest[k + 1] == ps[k + 2]);
                assert(!(ps[k + 1] is Text && ps[k + 2] is Text));
            }
        }
        let j = i + first.len();
        assert(parts_text(ps).len() == first.len() + tail.len());
        match ps[0] {
            Part::Numbers(ivs) => {
                let inner = joined_text(ivs) + seq![']'];
                assert(first =~= seq!['['] + inner);
                lemma_text_at_split(s, i, seq!['['], inner);
                lemma_text_at_char(s, i, seq!['['], 0);
                assert(s[i] == '[');
                assert forall|k: int| 0 <= k < ivs.len() implies (#[trigger] ivs[k]).0
                    <= ivs[k].1 by {}
                lemma_items_read_back(s, i + 1, ivs, Seq::empty());
                assert(Seq::<(u32, u32)>::empty() + ivs =~= ivs);
                assert(j == i + 1 + joined_text(ivs).len() + 1);
                lemma_pieces_read_back(s, j, rest, acc.push(ps[0]));
                assert(acc.push(ps[0]) + rest =~= acc + ps);
            },
            Part::Text(t) => {
                assert(first == t);
                assert forall|m: int| i <= m < j implies is_name_char(#[trigger] s[m]) by {
                    lemma_text_at_char(s, i, t, m - i);
                    assert(is_name_char(t[m - i]));
                }
                // after the text stands the end, a comma, or the bracket of the
                // set that follows
                if j < s.len() {
                    if rest.len() == 0 {
                        assert(tail =~= Seq::<char>::empty());
                        assert(s[j] == ',');
                    } else {
                        assert(ps[0] is Text);
                        assert(rest[0] == ps[1]);
                        assert(!(ps[0] is Text && ps[1] is Text));
                        lemma_parts_front(rest);
                        let ivs = rest[0]->Numbers_0;
                        assert(part_text(rest[0]) =~= seq!['['] + (joined_text(ivs) + seq![']']));
                        lemma_text_at_split(s, j, part_text(rest[0]), parts_text(rest.drop_first()));
                        lemma_text_at_split(s, j, seq!['['], joined_text(ivs) + seq![']']);
                        lemma_text_at_char(s, j, seq!['['], 0);
                        assert(s[j] == '[');
                    }
                    assert(!is_name_char(s[j]));
                }
                lemma_name_end_is(s, i, j);
                lemma_text_at_char(s, i, t, 0);
                assert(is_name_char(s[i]));
                assert(s.subrange(i, j) == t);
                lemma_pieces_read_back(s, j, rest, acc.push(ps[0]));
                assert(acc.push(ps[0]) + rest =~= acc + ps);
            },
        }
    }
}

/// Whether the entry is as the canonical form has it: it starts with text, its
/// pieces are canonical, and a counter holds the number of its names.
pub open spec fn is_canonical_entry(e: Seq<Part>) -> bool {
    &&& e.len() > 0
    &&& e[0] is Text
    &&& are_canonical_parts(e)
    &&& checked_cardinality(e) is Some
}

/// An entry with one set of numbers is the only entry of its shape.
pub open spec fn distinct_shapes(es: Seq<Seq<Part>>) -> bool {
    forall|i: int, j: int|
        0 <= i < es.len() && 0 <= j < es.len() && i != j && slot_count(shapes(#[trigger] es[i]))
            == 1 ==> shapes(es[i]) != shapes(#[trigger] es[j])
}

/// Every entry is canonical.
pub open spec fn canonical_each(es: Seq<Seq<Part>>) -> bool {
    forall|i: int| 0 <= i < es.len() ==> is_canonical_entry(#[trigger] es[i])
}

/// Whether the entries are an expression in canonical form: each entry is
/// canonical, the entries are in order, and an entry with one set of numbers is
/// the only entry of its shape.
pub open spec fn is_canonical_expression(es: Seq<Seq<Part>>) -> bool {
    &&& canonical_each(es)
    &&& sorted(es)
    &&& distinct_shapes(es)
}

/// Entries written with commas between them: the first, a comma, the rest.
proof fn lemma_expression_front(es: Seq<Seq<Part>>)
    requires
        es.len() >= 2,
    ensures
        expression_text(es) == parts_text(es[0]) + seq![','] + expression_text(es.drop_first()),
    decreases es.len(),
{
    let init = es.drop_last();
    let rest = es.drop_first();
    let last = parts_text(es.last());
    let first = parts_text(es[0]);
    assert(init[0] == es[0]);
    assert(rest.last() == es.last());
    if es.len() == 2 {
        assert(rest[0] == es[1]);
        assert(expression_text(init) == first);
        assert(expression_text(rest) == last);
    } else {
        lemma_expression_front(init);
        assert(rest.drop_last() =~= init.drop_first());
        assert(expression_text(rest) == expression_text(rest.drop_last()) + seq![','] + last);
        assert(expression_text(es) =~= first + seq![','] + expression_text(rest));
    }
}

/// The entries that are written from `i` to the end of the text are read there.
pub proof fn lemma_entries_read_back(
    s: Seq<char>,
    i: int,
    es: Seq<Seq<Part>>,
    acc: Seq<Seq<Part>>,
)
    requires
        es.len() >= 1,
        forall|k: int| 0 <= k < es.len() ==> is_canonical_entry(#[trigger] es[k]),
        text_at(s, i, expression_text(es)),
        i + expression_text(es).len() == s.len(),
    ensures
        entries_from(s, i, acc) == Some(acc + es),
    decreases es.len(),
{
    let e = es[0];
    let first = parts_text(e);
    assert(is_canonical_entry(e));
    lemma_parts_front(e);
    assert(is_canonical_part(e[0]));
    let t = e[0]->Text_0;
    assert(part_text(e[0]) == t);
    let j = i + first.len();
    if es.len() == 1 {
        assert(expression_text(es) == first);
        lemma_text_at_char(s, i, first, 0);
        assert(first[0] == t[0]);
        lemma_pieces_read_back(s, i, e, Seq::empty());
        assert(Seq::<Part>::empty() + e =~= e);
        assert(acc.push(e) =~= acc + es);
    } else {
        let rest = es.drop_first();
        lemma_expression_front(es);
        let tail = expression_text(rest);
        assert(expression_text(es) =~= (first + seq![',']) + tail);
        lemma_text_at_split(s, i, first + seq![','], tail);
        lemma_text_at_split(s, i, first, seq![',']);
        lemma_text_at_char(s, j, seq![','], 0);
        lemma_text_at_char(s, i, first, 0);
        assert(first[0] == t[0]);
        lemma_pieces_read_back(s, i, e, Seq::empty());
        assert(Seq::<Part>::empty() + e =~= e);
        // the next entry starts right after the comma, with a name character
        let e2 = rest[0];
        assert(e2 == es[1]);
        assert(is_canonical_entry(e2));
        lemma_parts_front(e2);
        assert(is_canonical_part(e2[0]));
        let t2 = e2[0]->Text_0;
        let next = parts_text(e2);
        assert(next[0] == t2[0]);
        if rest.len() == 1 {
            assert(tail == next);
        } else {
            lemma_expression_front(rest);
            assert(tail =~= next + (seq![','] + expression_text(rest.drop_first())));
            lemma_text_at_split(s, j + 1, next, seq![','] + expression_text(rest.drop_first()));
        }
        lemma_text_at_char(s, j + 1, next, 0);
        assert(is_name_char(s[j + 1]));
        assert(!is_blank(s[j + 1]));
        assert(blanks_end(s, j + 1) == j + 1);
        assert forall|k: int| 0 <= k < rest.len() implies is_canonical_entry(#[trigger] rest[k]) by {
            assert(rest[k] == es[k + 1]);
        }
        lemma_entries_read_back(s, j + 1, rest, acc.push(e));
        assert(acc.push(e) + rest =~= acc + es);
    }
}

/// Numbers are written in ASCII.
proof fn lemma_decimal_ascii(n: nat)
    ensures
        is_ascii_chars(decimal(n)),
{
    lemma_decimal_digits(n);
    assert forall|i: int| 0 <= i < decimal(n).len() implies '\0' <= #[trigger] decimal(n)[i]
        <= '\u{7f}' by {
        assert(is_digit(decimal(n)[i]));
    }
}

/// Two texts in ASCII, one after the other, are a text in ASCII.
proof fn lemma_ascii_concat(a: Seq<char>, b: Seq<char>)
    requires
        is_ascii_chars(a),
        is_ascii_chars(b),
    ensures
        is_ascii_chars(a + b),
{
    assert forall|i: int| 0 <= i < (a + b).len() implies '\0' <= #[trigger] (a + b)[i]
        <= '\u{7f}' by {
        if i < a.len() {
            assert((a + b)[i] == a[i]);
        } else {
            assert((a + b)[i] == b[i - a.len()]);
        }
    }
}

/// Bounds are written in ASCII.
proof fn lemma_interval_ascii(lo: u32, hi: u32)
    ensures
        is_ascii_chars(interval_text(lo, hi)),
{
    lemma_decimal_ascii(lo as nat);
    lemma_decimal_ascii(hi as nat);
    lemma_ascii_concat(decimal(lo as nat), seq!['-']);
    lemma_ascii_concat(decimal(lo as nat) + seq!['-'], decimal(hi as nat));
}

/// Intervals are written in ASCII.
proof fn lemma_joined_ascii(ivs: Seq<(u32, u32)>)
    ensures
        is_ascii_chars(joined_text(ivs)),
    decreases ivs.len(),
{
    if ivs.len() == 1 {
        lemma_interval_ascii(ivs[0].0, ivs[0].1);
    } else if ivs.len() > 1 {
        lemma_joined_ascii(ivs.drop_last());
        lemma_interval_ascii(ivs.last().0, ivs.last().1);
        lemma_ascii_concat(joined_text(ivs.drop_last()), seq![',']);
        lemma_ascii_concat(
            joined_text(ivs.drop_last()) + seq![','],
            interval_text(ivs.last().0, ivs.last().1),
        );
    }
}

/// Canonical pieces are written in ASCII.
proof fn lemma_parts_ascii(ps: Seq<Part>)
    requires
        forall|k: int| 0 <= k < ps.len() ==> is_canonical_part(#[trigger] ps[k]),
    ensures
        is_ascii_chars(parts_text(ps)),
    decreases ps.len(),
{
    if ps.len() > 0 {
        let init = ps.drop_last();
        assert forall|k: int| 0 <= k < init.len() implies is_canonical_part(#[trigger] init[k]) by {
            assert(init[k] == ps[k]);
        }
        lemma_parts_ascii(init);
        assert(is_canonical_part(ps[ps.len() - 1]));
        match ps.last() {
            Part::Text(t) => {
                assert forall|i: int| 0 <= i < t.len() implies '\0' <= #[trigger] t[i]
                    <= '\u{7f}' by {
                    assert(is_name_char(t[i]));
                }
            },
            Part::Numbers(ivs) => {
                lemma_joined_ascii(ivs);
                lemma_ascii_concat(seq!['['], joined_text(ivs));
                lemma_ascii_concat(seq!['['] + joined_text(ivs), seq![']']);
            },
        }
        lemma_ascii_concat(parts_text(init), part_text(ps.last()));
    }
}

/// Canonical entries are written in ASCII.
proof fn lemma_expression_ascii(es: Seq<Seq<Part>>)
    requires
        forall|k: int| 0 <= k < es.len() ==> is_canonical_entry(#[trigger] es[k]),
    ensures
        is_ascii_chars(expression_text(es)),
    decreases es.len(),
{
    if es.len() == 1 {
        assert(is_canonical_entry(es[0]));
        lemma_parts_ascii(es[0]);
    } else if es.len() > 1 {
        let init = es.drop_last();
        assert forall|k: int| 0 <= k < init.len() implies is_canonical_entry(#[trigger] init[k]) by {
            assert(init[k] == es[k]);
        }
        lemma_expression_ascii(init);
        assert(is_canonical_entry(es[es.len() - 1]));
        lemma_parts_ascii(es.last());
        lemma_ascii_concat(expression_text(init), seq![',']);
        lemma_ascii_concat(expression_text(init) + seq![','], parts_text(es.last()));
    }
}

/// The bounds of a canonical list are without fault.
proof fn lemma_canonical_pairs_fine(ivs: Seq<(u32, u32)>)
    requires
        canonical(ivs),
    ensures
        first_pair_error(ivs) is None,
    decreases ivs.len(),
{
    if ivs.len() > 0 {
        let init = ivs.drop_last();
        lemma_canonical_prefix(ivs, ivs.len() - 1);
        assert(ivs.take(ivs.len() - 1) =~= init);
        lemma_canonical_pairs_fine(init);
        assert(ivs.last() == ivs[ivs.len() - 1]);
    }
}

/// The pieces of a canonical entry are without fault and in canonical form
/// already.
proof fn lemma_canonical_parts_fine(ps: Seq<Part>)
    requires
        forall|k: int| 0 <= k < ps.len() ==> is_canonical_part(#[trigger] ps[k]),
    ensures
        first_part_error(ps) is None,
        canon_parts(ps) == ps,
    decreases ps.len(),
{
    assert(canon_parts(ps) =~= ps) by {
        assert forall|k: int| 0 <= k < ps.len() implies canon_parts(ps)[k] == ps[k] by {
            assert(is_canonical_part(ps[k]));
            match ps[k] {
                Part::Text(_) => {},
                Part::Numbers(ivs) => {
                    lemma_canon_is(ivs, ivs);
                },
            }
        }
    }
    if ps.len() > 0 {
        let init = ps.drop_last();
        assert forall|k: int| 0 <= k < init.len() implies is_canonical_part(#[trigger] init[k]) by {
            assert(init[k] == ps[k]);
        }
        lemma_canonical_parts_fine(init);
        assert(is_canonical_part(ps[ps.len() - 1]));
        match ps.last() {
            Part::Text(_) => {},
            Part::Numbers(ivs) => {
                lemma_canonical_pairs_fine(ivs);
            },
        }
    }
}

/// Canonical entries are taken as they are: none is refused, none changes when
/// its bounds are brought into canonical form, and none is merged into another.
proof fn lemma_canonical_entries_kept(es: Seq<Seq<Part>>)
    requires
        is_canonical_expression(es),
    ensures
        first_entry_error(es) is None,
        canon_entries(es) == es,
        merge_entries(es) == es,
    decreases es.len(),
{
    assert(canon_entries(es) =~= es) by {
        assert forall|k: int| 0 <= k < es.len() implies canon_entries(es)[k] == es[k] by {
            assert(is_canonical_entry(es[k]));
            lemma_canonical_parts_fine(es[k]);
        }
    }
    if es.len() == 0 {
        assert(merge_entries(es) =~= es);
    } else {
        let init = es.drop_last();
        let last = es.last();
        assert(last == es[es.len() - 1]);
        assert(is_canonical_expression(init)) by {
            assert forall|k: int| 0 <= k < init.len() implies is_canonical_entry(
                #[trigger] init[k],
            ) by {
                assert(init[k] == es[k]);
            }
            assert forall|a: int, b: int| 0 <= a < b < init.len() implies #[trigger] entry_le()(
                init[a],
                init[b],
            ) by {
                assert(init[a] == es[a] && init[b] == es[b]);
                assert(entry_le()(es[a], es[b]));
            }
            assert forall|a: int, b: int|
                0 <= a < init.len() && 0 <= b < init.len() && a != b && slot_count(
                    shapes(#[trigger] init[a]),
                ) == 1 implies shapes(init[a]) != shapes(#[trigger] init[b]) by {
                assert(init[a] == es[a] && init[b] == es[b]);
            }
        }
        lemma_canonical_entries_kept(init);
        assert(is_canonical_entry(last));
        lemma_canonical_parts_fine(last);
        assert(entry_error(last) is None);
        // no entry before the last has its shape, where it has one set of numbers
        lemma_shape_index(init, shapes(last), 0);
        let k = shape_index(init, shapes(last), 0);
        if slot_count(shapes(last)) == 1 && k < init.len() {
            assert(init[k] == es[k]);
            assert(shapes(es[es.len() - 1]) != shapes(es[k]));
        }
        assert(init.push(last) =~= es);
    }
}

/// An expression in canonical form, written out and read again, is the same
/// expression: the text follows the grammar, the entries that are read are the
/// entries that were written, and nothing is left to merge or to put in order.
pub proof fn lemma_canonical_reads_back(es: Seq<Seq<Part>>)
    requires
        is_canonical_expression(es),
    ensures
        parse_expression(expression_text(es)) == Some(es),
        first_entry_error(es) is None,
        merge_entries(canon_entries(es)) == es,
        canonical_entries(es) == es,
{
    let s = expression_text(es);
    lemma_expression_ascii(es);
    if es.len() == 0 {
        assert(es =~= Seq::<Seq<Part>>::empty());
    } else {
        assert(s.subrange(0, s.len() as int) =~= s);
        lemma_entries_read_back(s, 0, es, Seq::empty());
        assert(Seq::<Seq<Part>>::empty() + es =~= es);
        assert(is_canonical_entry(es[0]));
        lemma_parts_front(es[0]);
        assert(is_canonical_part(es[0][0]));
        if es.len() == 1 {
            assert(s.len() > 0);
        } else {
            lemma_expression_front(es);
            assert(s.len() > 0);
        }
    }
    lemma_canonical_entries_kept(es);
    lemma_entry_le_total();
    es.lemma_sort_by_ensures(entry_le());
    lemma_sorted_unique(es, es.sort_by(entry_le()), entry_le());
}

} // verus!
