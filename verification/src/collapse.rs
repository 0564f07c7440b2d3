//! From host names back to an expression: names that differ only in the number
//! at their end are gathered, and the numbers are written as ranges.

use vstd::prelude::*;
use vstd::string::*;
use vstd::utf8::is_ascii_chars;
use vstd::arithmetic::div_mod::{lemma_basic_div, lemma_small_mod};
use crate::error::Error;
use crate::hostlist::{all_names, expression_text};
use crate::hostlistelem::{
    cardinality, name_at, names, parts_text, shapes, slot_count, Shape,
};
use crate::order::{
    ascending_by, char_order, compare_text, is_item, lemma_ascending_unique, lemma_char_order,
    lemma_lex_flip, lemma_lex_is_order, lemma_lex_trans, lemma_number_order, lemma_part_order,
    entry_le, lex_compare, lex_order, number_order, part_order, sorted,
};
use crate::parser::{
    hostname_prefix, hostname_suffix, is_hostname, lemma_suffix_start_bounds, suffix_start,
    HostlistParser,
};
use crate::range::{
    canonical, joined_text, lemma_canonical_prefix, lemma_values_ascending, range_text, values,
};
use crate::simplerange::{interval_seq, interval_text, push_interval};
use crate::readback::distinct_shapes;
use crate::seqs::{lemma_concat_all_has, lemma_concat_all_item};
use crate::text::{decimal, is_digit, lemma_decimal_digits, lemma_decimal_round_trip};
use crate::token::Part;

verus! {

/// The runs of numbers that follow one another without a gap, each as its first
/// and its last number.
pub open spec fn runs(vs: Seq<u32>) -> Seq<(u32, u32)>
    decreases vs.len(),
{
    if vs.len() == 0 {
        Seq::empty()
    } else {
        let r = runs(vs.drop_last());
        if r.len() > 0 && r.last().1 + 1 == vs.last() {
            r.drop_last().push((r.last().0, vs.last()))
        } else {
            r.push((vs.last(), vs.last()))
        }
    }
}

/// How numbers are written at the end of a name: nothing for none, the number
/// itself for one, and else their runs in square brackets.
pub open spec fn collapse_text(vs: Seq<u32>) -> Seq<char> {
    let r = runs(vs);
    if r.len() == 0 {
        Seq::empty()
    } else if r.len() == 1 && r[0].0 == r[0].1 {
        decimal(r[0].0 as nat)
    } else {
        range_text(r)
    }
}

/// The texts with commas between them.
pub open spec fn join_commas(items: Seq<Seq<char>>) -> Seq<char>
    decreases items.len(),
{
    if items.len() == 0 {
        Seq::empty()
    } else if items.len() == 1 {
        items[0]
    } else {
        join_commas(items.drop_last()) + seq![','] + items.last()
    }
}

/// Whether a host name can be taken in: it is a plain host name, and where it
/// ends in digits a 32-bit number holds what they write.
pub open spec fn host_ok(h: Seq<char>) -> bool {
    &&& is_ascii_chars(h)
    &&& is_hostname(h)
    &&& hostname_suffix(h) matches Some(v) ==> v <= u32::MAX
}

/// The place of the first host name from `from` on that cannot be taken in; the
/// number of names where there is none.
pub open spec fn first_bad(hs: Seq<Seq<char>>, from: int) -> int
    decreases hs.len() - from,
{
    if from < 0 || from >= hs.len() {
        hs.len() as int
    } else if !host_ok(hs[from]) {
        from
    } else {
        first_bad(hs, from + 1)
    }
}

/// Whether `e` is the error that host name `h` is refused with: it is no plain
/// host name, or the digits at its end write too large a number.
pub open spec fn refuses(e: Error, h: Seq<char>) -> bool {
    match e {
        Error::InvalidHostname(t) => t@ == h && !(is_ascii_chars(h) && is_hostname(h)),
        Error::ParseError(t) => t@ == h && is_ascii_chars(h) && is_hostname(h) && !host_ok(h),
        _ => false,
    }
}

/// The names that end in no digit, in the order in which they come.
pub open spec fn literals(hs: Seq<Seq<char>>) -> Seq<Seq<char>>
    decreases hs.len(),
{
    if hs.len() == 0 {
        Seq::empty()
    } else if hostname_suffix(hs.last()) is None {
        literals(hs.drop_last()).push(hs.last())
    } else {
        literals(hs.drop_last())
    }
}

/// Whether the `m`-th number of the `k`-th group is `v`, and the prefix of that
/// group is `p`.
pub open spec fn holds_at(g: Seq<(Seq<char>, Seq<u32>)>, k: int, m: int, p: Seq<char>, v: u32) -> bool {
    0 <= k < g.len() && 0 <= m < g[k].1.len() && g[k].0 == p && g[k].1[m] == v
}

/// Whether the groups hold number `v` under prefix `p`.
pub open spec fn has(g: Seq<(Seq<char>, Seq<u32>)>, p: Seq<char>, v: u32) -> bool {
    exists|k: int, m: int| #[trigger] holds_at(g, k, m, p, v)
}

/// Whether the `i`-th name is prefix `p` followed by digits that write `v`.
pub open spec fn name_is(hs: Seq<Seq<char>>, i: int, p: Seq<char>, v: u32) -> bool {
    0 <= i < hs.len() && hostname_prefix(hs[i]) == p && hostname_suffix(hs[i]) == Some(v as nat)
}

/// Whether one of the first `n` names is prefix `p` followed by digits that
/// write `v`.
pub open spec fn seen(hs: Seq<Seq<char>>, n: int, p: Seq<char>, v: u32) -> bool {
    exists|i: int| i < n && #[trigger] name_is(hs, i, p, v)
}

/// The prefixes are in ascending order and each occurs once; each group has
/// numbers, in ascending order and each once.
pub open spec fn ordered_groups(g: Seq<(Seq<char>, Seq<u32>)>) -> bool {
    &&& forall|i: int, j: int|
        0 <= i < j < g.len() ==> lex_compare((#[trigger] g[i]).0, (#[trigger] g[j]).0, char_order())
            < 0
    &&& forall|k: int| 0 <= k < g.len() ==> (#[trigger] g[k]).1.len() > 0
    &&& forall|k: int, a: int, b: int|
        0 <= k < g.len() && 0 <= a < b < g[k].1.len() ==> #[trigger] g[k].1[a] < #[trigger] g[k].1[b]
}

/// The groups are those of the names: ordered, and holding a number under a
/// prefix where, and only where, a name is that prefix with that number.
pub open spec fn is_grouping(g: Seq<(Seq<char>, Seq<u32>)>, hs: Seq<Seq<char>>) -> bool {
    &&& ordered_groups(g)
    &&& forall|p: Seq<char>, v: u32| has(g, p, v) <==> seen(hs, hs.len() as int, p, v)
}

/// The groups of the names.
pub open spec fn grouping(hs: Seq<Seq<char>>) -> Seq<(Seq<char>, Seq<u32>)> {
    choose|g: Seq<(Seq<char>, Seq<u32>)>| is_grouping(g, hs)
}

/// The expression that the names collapse to: the names that end in no digit,
/// then the groups, with commas between them.
pub open spec fn collapsed(hs: Seq<Seq<char>>) -> Seq<char> {
    join_commas(literals(hs) + group_texts(grouping(hs)))
}

/// The prefixes of the groups, in order.
pub open spec fn prefixes(g: Seq<(Seq<char>, Seq<u32>)>) -> Seq<Seq<char>> {
    Seq::new(g.len(), |k: int| g[k].0)
}

/// Names have one grouping only.
pub proof fn lemma_grouping_unique(
    g1: Seq<(Seq<char>, Seq<u32>)>,
    g2: Seq<(Seq<char>, Seq<u32>)>,
    hs: Seq<Seq<char>>,
)
    requires
        is_grouping(g1, hs),
        is_grouping(g2, hs),
    ensures
        g1 == g2,
{
    lemma_char_order();
    lemma_lex_is_order(char_order());
    lemma_number_order();
    let f = lex_order(char_order());
    let p1 = prefixes(g1);
    let p2 = prefixes(g2);
    assert(ascending_by(p1, f)) by {
        assert forall|i: int, j: int| 0 <= i < j < p1.len() implies f(
            #[trigger] p1[i],
            #[trigger] p1[j],
        ) < 0 by {
            assert(lex_compare(g1[i].0, g1[j].0, char_order()) < 0);
        }
    }
    assert(ascending_by(p2, f)) by {
        assert forall|i: int, j: int| 0 <= i < j < p2.len() implies f(
            #[trigger] p2[i],
            #[trigger] p2[j],
        ) < 0 by {
            assert(lex_compare(g2[i].0, g2[j].0, char_order()) < 0);
        }
    }
    assert forall|x: Seq<char>| is_item(p1, x) <==> is_item(p2, x) by {
        lemma_prefix_shared(g1, g2, hs, x);
        lemma_prefix_shared(g2, g1, hs, x);
    }
    lemma_ascending_unique(p1, p2, f);
    assert(p1.len() == g1.len() && p2.len() == g2.len());
    assert(g1.len() == g2.len());
    assert forall|k: int| 0 <= k < g1.len() implies g1[k] == g2[k] by {
        assert(p1[k] == p2[k]);
        assert(g1[k].0 == g2[k].0);
        let v1 = g1[k].1;
        let v2 = g2[k].1;
        assert(ascending_by(v1, number_order())) by {
            assert forall|a: int, b: int| 0 <= a < b < v1.len() implies number_order()(
                #[trigger] v1[a],
                #[trigger] v1[b],
            ) < 0 by {
                assert(g1[k].1[a] < g1[k].1[b]);
            }
        }
        assert(ascending_by(v2, number_order())) by {
            assert forall|a: int, b: int| 0 <= a < b < v2.len() implies number_order()(
                #[trigger] v2[a],
                #[trigger] v2[b],
            ) < 0 by {
                assert(g2[k].1[a] < g2[k].1[b]);
            }
        }
        assert forall|x: u32| is_item(v1, x) <==> is_item(v2, x) by {
            lemma_number_shared(g1, g2, hs, k, x);
            lemma_number_shared(g2, g1, hs, k, x);
        }
        lemma_ascending_unique(v1, v2, number_order());
    }
    assert(g1 =~= g2);
}

/// A prefix of one grouping of the names is a prefix of any other.
proof fn lemma_prefix_shared(
    g1: Seq<(Seq<char>, Seq<u32>)>,
    g2: Seq<(Seq<char>, Seq<u32>)>,
    hs: Seq<Seq<char>>,
    x: Seq<char>,
)
    requires
        is_grouping(g1, hs),
        is_grouping(g2, hs),
    ensures
        is_item(prefixes(g1), x) ==> is_item(prefixes(g2), x),
{
    if is_item(prefixes(g1), x) {
        let k = choose|k: int| 0 <= k < prefixes(g1).len() && #[trigger] prefixes(g1)[k] == x;
        assert(g1[k].1.len() > 0);
        let v = g1[k].1[0];
        assert(holds_at(g1, k, 0, x, v));
        assert(has(g1, x, v));
        assert(seen(hs, hs.len() as int, x, v));
        assert(has(g2, x, v));
        let (a, m) = choose|a: int, m: int| #[trigger] holds_at(g2, a, m, x, v);
        assert(prefixes(g2)[a] == x);
    }
}

/// A number of the `k`-th group of one grouping of the names is a number of the
/// `k`-th group of any other with the same prefix there.
proof fn lemma_number_shared(
    g1: Seq<(Seq<char>, Seq<u32>)>,
    g2: Seq<(Seq<char>, Seq<u32>)>,
    hs: Seq<Seq<char>>,
    k: int,
    x: u32,
)
    requires
        is_grouping(g1, hs),
        is_grouping(g2, hs),
        0 <= k < g1.len(),
        k < g2.len(),
        g1[k].0 == g2[k].0,
    ensures
        is_item(g1[k].1, x) ==> is_item(g2[k].1, x),
{
    if is_item(g1[k].1, x) {
        let m = choose|m: int| 0 <= m < g1[k].1.len() && #[trigger] g1[k].1[m] == x;
        let p = g1[k].0;
        assert(holds_at(g1, k, m, p, x));
        assert(has(g1, p, x));
        assert(seen(hs, hs.len() as int, p, x));
        assert(has(g2, p, x));
        let (a, b) = choose|a: int, b: int| #[trigger] holds_at(g2, a, b, p, x);
        lemma_char_order();
        lemma_lex_flip(p, p, char_order());
        if a < k {
            assert(lex_compare(g2[a].0, g2[k].0, char_order()) < 0);
        } else if a > k {
            assert(lex_compare(g2[k].0, g2[a].0, char_order()) < 0);
        }
        assert(a == k);
        assert(g2[k].1[b] == x);
    }
}

/// How each group is written: its prefix, then its numbers.
pub open spec fn group_texts(g: Seq<(Seq<char>, Seq<u32>)>) -> Seq<Seq<char>> {
    Seq::new(g.len(), |k: int| g[k].0 + collapse_text(g[k].1))
}

/// The groups as values of mathematics.
pub open spec fn group_views(gs: Seq<(String, Vec<u32>)>) -> Seq<(Seq<char>, Seq<u32>)> {
    Seq::new(gs.len(), |k: int| (gs[k].0@, gs[k].1@))
}

/// The texts of the strings, in order.
pub open spec fn text_views(v: Seq<String>) -> Seq<Seq<char>> {
    Seq::new(v.len(), |i: int| v[i]@)
}

/// The texts of the string slices, in order.
pub open spec fn str_views(v: Seq<&str>) -> Seq<Seq<char>> {
    Seq::new(v.len(), |i: int| v[i]@)
}

/// Finds the runs among the numbers.
fn find_runs(nums: &Vec<u32>) -> (r: Vec<(u32, u32)>)
    ensures
        r@ == runs(nums@),
{
    let mut r: Vec<(u32, u32)> = Vec::new();
    let mut i: usize = 0;
    proof {
        assert(nums@.take(0) =~= Seq::<u32>::empty());
    }
    while i < nums.len()
        invariant
            i <= nums.len(),
            r@ == runs(nums@.take(i as int)),
        decreases nums.len() - i,
    {
        let num = nums[i];
        proof {
            let next = nums@.take(i + 1);
            assert(next.drop_last() =~= nums@.take(i as int));
            assert(next.last() == num);
        }
        let n = r.len();
        if n > 0 && num > 0 && r[n - 1].1 == num - 1 {
            let first = r[n - 1].0;
            r.pop();
            r.push((first, num));
        } else {
            r.push((num, num));
        }
        i = i + 1;
    }
    proof {
        assert(nums@.take(i as int) =~= nums@);
    }
    r
}

/// Writes numbers as they stand at the end of a name in an expression: runs
/// of numbers become ranges, and square brackets stand around them unless there
/// is one number only.
pub fn collapse_range(nums: &Vec<u32>) -> (s: String)
    ensures
        s@ == collapse_text(nums@),
{
    let r = find_runs(nums);
    let mut s = String::new();
    if r.len() == 0 {
        return s;
    }
    if r.len() == 1 && r[0].0 == r[0].1 {
        push_interval(&mut s, r[0].0, r[0].1);
        proof {
            assert(s@ =~= decimal(r[0].0 as nat));
        }
        return s;
    }
    proof {
        reveal_strlit("[");
        reveal_strlit("]");
    }
    s.append("[");
    let mut i: usize = 0;
    proof {
        assert(r@.take(0) =~= Seq::<(u32, u32)>::empty());
        assert(s@ =~= seq!['['] + joined_text(r@.take(0)));
    }
    while i < r.len()
        invariant
            i <= r.len(),
            s@ == seq!['['] + joined_text(r@.take(i as int)),
        decreases r.len() - i,
    {
        let ghost before = s@;
        if i > 0 {
            proof {
                reveal_strlit(",");
            }
            s.append(",");
        }
        push_interval(&mut s, r[i].0, r[i].1);
        proof {
            let next = r@.take(i + 1);
            let t = interval_text(r[i as int].0, r[i as int].1);
            assert(next.drop_last() =~= r@.take(i as int));
            assert(next.last() == r@[i as int]);
            if i == 0 {
                assert(next[0] == r@[0]);
                assert(joined_text(r@.take(0)) =~= Seq::<char>::empty());
                assert(s@ =~= seq!['['] + joined_text(next));
            } else {
                assert(joined_text(next) == joined_text(r@.take(i as int)) + seq![','] + t);
                assert(s@ =~= before + seq![','] + t);
                assert(s@ =~= seq!['['] + joined_text(next));
            }
        }
        i = i + 1;
    }
    s.append("]");
    proof {
        assert(r@.take(i as int) =~= r@);
        assert(s@ =~= range_text(r@));
    }
    s
}

/// What the groups hold once a group of one number is put in at place `k`.
proof fn lemma_has_insert_group(g: Seq<(Seq<char>, Seq<u32>)>, k: int, p: Seq<char>, v: u32)
    requires
        0 <= k <= g.len(),
    ensures
        forall|q: Seq<char>, w: u32|
            has(g.insert(k, (p, seq![v])), q, w) <==> has(g, q, w) || (q == p && w == v),
{
    let g2 = g.insert(k, (p, seq![v]));
    assert forall|q: Seq<char>, w: u32| has(g2, q, w) <==> has(g, q, w) || (q == p && w == v) by {
        if has(g2, q, w) {
            let (a, m) = choose|a: int, m: int| #[trigger] holds_at(g2, a, m, q, w);
            if a < k {
                assert(holds_at(g, a, m, q, w));
            } else if a > k {
                assert(g2[a] == g[a - 1]);
                assert(holds_at(g, a - 1, m, q, w));
            }
        }
        if has(g, q, w) {
            let (a, m) = choose|a: int, m: int| #[trigger] holds_at(g, a, m, q, w);
            if a < k {
                assert(holds_at(g2, a, m, q, w));
            } else {
                assert(g2[a + 1] == g[a]);
                assert(holds_at(g2, a + 1, m, q, w));
            }
        }
        if q == p && w == v {
            assert(holds_at(g2, k, 0, q, w));
        }
    }
}

/// What the groups hold once a number is put into the `k`-th group at place `m`.
proof fn lemma_has_insert_value(g: Seq<(Seq<char>, Seq<u32>)>, k: int, m: int, v: u32)
    requires
        0 <= k < g.len(),
        0 <= m <= g[k].1.len(),
    ensures
        forall|q: Seq<char>, w: u32|
            has(g.update(k, (g[k].0, g[k].1.insert(m, v))), q, w) <==> has(g, q, w) || (q
                == g[k].0 && w == v),
{
    let vs = g[k].1;
    let vs2 = vs.insert(m, v);
    let g2 = g.update(k, (g[k].0, vs2));
    assert forall|q: Seq<char>, w: u32| has(g2, q, w) <==> has(g, q, w) || (q == g[k].0 && w == v) by {
        if has(g2, q, w) {
            let (a, b) = choose|a: int, b: int| #[trigger] holds_at(g2, a, b, q, w);
            if a != k {
                assert(holds_at(g, a, b, q, w));
            } else if b < m {
                assert(vs2[b] == vs[b]);
                assert(holds_at(g, a, b, q, w));
            } else if b > m {
                assert(vs2[b] == vs[b - 1]);
                assert(holds_at(g, a, b - 1, q, w));
            }
        }
        if has(g, q, w) {
            let (a, b) = choose|a: int, b: int| #[trigger] holds_at(g, a, b, q, w);
            if a != k {
                assert(holds_at(g2, a, b, q, w));
            } else if b < m {
                assert(vs2[b] == vs[b]);
                assert(holds_at(g2, a, b, q, w));
            } else {
                assert(vs2[b + 1] == vs[b]);
                assert(holds_at(g2, a, b + 1, q, w));
            }
        }
        if q == g[k].0 && w == v {
            assert(vs2[m] == v);
            assert(holds_at(g2, k, m, q, w));
        }
    }
}

/// Ordered groups stay ordered when a number is put into a group at its place.
proof fn lemma_ordered_insert_value(g: Seq<(Seq<char>, Seq<u32>)>, at: int, m: int, v: u32)
    requires
        ordered_groups(g),
        0 <= at < g.len(),
        0 <= m <= g[at].1.len(),
        forall|b: int| 0 <= b < m ==> (#[trigger] g[at].1[b]) < v,
        m == g[at].1.len() || v < g[at].1[m],
    ensures
        ordered_groups(g.update(at, (g[at].0, g[at].1.insert(m, v)))),
{
    let vs = g[at].1;
    let vs2 = vs.insert(m, v);
    let g2 = g.update(at, (g[at].0, vs2));
    assert forall|a: int, b: int, c: int|
        0 <= a < g2.len() && 0 <= b < c < g2[a].1.len() implies #[trigger] g2[a].1[b]
        < #[trigger] g2[a].1[c] by {
        if a != at {
            assert(g2[a] == g[a]);
            assert(g[a].1[b] < g[a].1[c]);
        } else {
            let fb = if b < m {
                b
            } else {
                b - 1
            };
            let fc = if c < m {
                c
            } else {
                c - 1
            };
            if b != m && c != m {
                assert(vs2[b] == vs[fb]);
                assert(vs2[c] == vs[fc]);
                assert(g[a].1[fb] < g[a].1[fc]);
            } else if b == m {
                assert(vs2[c] == vs[c - 1]);
                if c - 1 > m {
                    assert(g[a].1[m] < g[a].1[c - 1]);
                }
            } else {
                assert(vs2[b] == vs[b]);
            }
        }
    }
    assert forall|a: int, b: int| 0 <= a < b < g2.len() implies lex_compare(
        (#[trigger] g2[a]).0,
        (#[trigger] g2[b]).0,
        char_order(),
    ) < 0 by {
        assert(g2[a].0 == g[a].0);
        assert(g2[b].0 == g[b].0);
    }
    assert forall|a: int| 0 <= a < g2.len() implies (#[trigger] g2[a]).1.len() > 0 by {
        if a != at {
            assert(g2[a] == g[a]);
        }
    }
}

/// Ordered groups stay ordered when a group of one number is put in at the
/// place of its prefix.
proof fn lemma_ordered_insert_group(g: Seq<(Seq<char>, Seq<u32>)>, at: int, p: Seq<char>, v: u32)
    requires
        ordered_groups(g),
        0 <= at <= g.len(),
        forall|a: int| 0 <= a < at ==> lex_compare(p, (#[trigger] g[a]).0, char_order()) > 0,
        at == g.len() || lex_compare(p, g[at].0, char_order()) < 0,
    ensures
        ordered_groups(g.insert(at, (p, seq![v]))),
{
    let g2 = g.insert(at, (p, seq![v]));
    lemma_char_order();
    assert forall|a: int, b: int| 0 <= a < b < g2.len() implies lex_compare(
        (#[trigger] g2[a]).0,
        (#[trigger] g2[b]).0,
        char_order(),
    ) < 0 by {
        let fa = if a < at {
            a
        } else {
            a - 1
        };
        let fb = if b < at {
            b
        } else {
            b - 1
        };
        if a != at && b != at {
            assert(g2[a] == g[fa]);
            assert(g2[b] == g[fb]);
            assert(lex_compare(g[fa].0, g[fb].0, char_order()) < 0);
        } else if b == at {
            assert(g2[a] == g[a]);
            assert(lex_compare(p, g[a].0, char_order()) > 0);
            lemma_lex_flip(p, g[a].0, char_order());
        } else {
            assert(g2[b] == g[b - 1]);
            assert(at < g.len());
            assert(lex_compare(p, g[at].0, char_order()) < 0);
            if b - 1 > at {
                assert(lex_compare(g[at].0, g[b - 1].0, char_order()) < 0);
                lemma_lex_trans(p, g[at].0, g[b - 1].0, char_order());
            }
        }
    }
    assert forall|a: int| 0 <= a < g2.len() implies (#[trigger] g2[a]).1.len() > 0 by {
        if a < at {
            assert(g2[a] == g[a]);
        } else if a > at {
            assert(g2[a] == g[a - 1]);
        }
    }
    assert forall|a: int, b: int, c: int|
        0 <= a < g2.len() && 0 <= b < c < g2[a].1.len() implies #[trigger] g2[a].1[b]
        < #[trigger] g2[a].1[c] by {
        if a < at {
            assert(g2[a] == g[a]);
            assert(g[a].1[b] < g[a].1[c]);
        } else if a > at {
            assert(g2[a] == g[a - 1]);
            assert(g[a - 1].1[b] < g[a - 1].1[c]);
        }
    }
}

/// Takes a number in under a prefix: into the group of that prefix, at its
/// place among the numbers there unless it is there already, or as a new group at
/// the place of the prefix among the prefixes.
fn add_to_groups(groups: &mut Vec<(String, Vec<u32>)>, prefix: String, v: u32)
    requires
        ordered_groups(group_views(old(groups)@)),
    ensures
        ordered_groups(group_views(final(groups)@)),
        forall|q: Seq<char>, w: u32|
            has(group_views(final(groups)@), q, w) <==> has(group_views(old(groups)@), q, w) || (q
                == prefix@ && w == v),
{
    let ghost g = group_views(groups@);
    let ghost p = prefix@;
    let mut k: usize = 0;
    let mut order: i8 = 1;
    while k < groups.len() && order > 0
        invariant
            k <= groups.len(),
            groups@ == old(groups)@,
            p == prefix@,
            g == group_views(groups@),
            forall|a: int|
                0 <= a < k - (if order > 0 {
                    0int
                } else {
                    1int
                }) ==> lex_compare(p, (#[trigger] g[a]).0, char_order()) > 0,
            order > 0 || (0 < k && order == lex_compare(p, g[k - 1].0, char_order())),
        decreases groups.len() - k,
    {
        order = compare_text(prefix.as_str(), groups[k].0.as_str());
        proof {
            assert(g[k as int].0 == groups[k as int].0@);
        }
        k = k + 1;
    }
    if order == 0 {
        // the group of this prefix
        let at: usize = k - 1;
        proof {
            lemma_char_order();
            lemma_lex_flip(p, g[at as int].0, char_order());
            assert(g[at as int].0 == p);
        }
        let ghost vs = g[at as int].1;
        let mut m: usize = 0;
        while m < groups[at].1.len() && groups[at].1[m] < v
            invariant
                at < groups.len(),
                groups@ == old(groups)@,
                g == group_views(groups@),
                vs == g[at as int].1,
                m <= groups[at as int].1.len(),
                forall|b: int| 0 <= b < m ==> (#[trigger] vs[b]) < v,
            decreases groups[at as int].1.len() - m,
        {
            m = m + 1;
        }
        if m < groups[at].1.len() && groups[at].1[m] == v {
            proof {
                assert(holds_at(g, at as int, m as int, p, v));
            }
            return;
        }
        groups[at].1.insert(m, v);
        proof {
            let g2 = group_views(groups@);
            assert(groups[at as int].0 == old(groups)[at as int].0);
            assert forall|a: int| 0 <= a < groups.len() && a != at implies #[trigger] groups[a]
                == old(groups)[a] by {}
            assert(g2 =~= g.update(at as int, (g[at as int].0, vs.insert(m as int, v))));
            lemma_has_insert_value(g, at as int, m as int, v);
            lemma_ordered_insert_value(g, at as int, m as int, v);
        }
    } else {
        // no group of this prefix yet: it comes before the group at `at`
        let at: usize = if order < 0 {
            k - 1
        } else {
            k
        };
        let mut nums: Vec<u32> = Vec::new();
        nums.push(v);
        groups.insert(at, (prefix, nums));
        proof {
            let g2 = group_views(groups@);
            assert(nums@ =~= seq![v]);
            assert(g2 =~= g.insert(at as int, (p, seq![v])));
            lemma_has_insert_group(g, at as int, p, v);
            lemma_ordered_insert_group(g, at as int, p, v);
        }
    }
}

/// Joins the texts with commas between them.
fn join_with_commas(items: &Vec<String>) -> (s: String)
    ensures
        s@ == join_commas(text_views(items@)),
{
    let ghost views = text_views(items@);
    let mut s = String::new();
    let mut i: usize = 0;
    proof {
        assert(views.take(0) =~= Seq::<Seq<char>>::empty());
    }
    while i < items.len()
        invariant
            i <= items.len(),
            views == text_views(items@),
            s@ == join_commas(views.take(i as int)),
        decreases items.len() - i,
    {
        let ghost before = s@;
        if i > 0 {
            proof {
                reveal_strlit(",");
            }
            s.append(",");
        }
        s.append(items[i].as_str());
        proof {
            let next = views.take(i + 1);
            assert(next.drop_last() =~= views.take(i as int));
            assert(next.last() == items[i as int]@);
            if i == 0 {
                assert(next[0] == views[0]);
                assert(before =~= Seq::<char>::empty());
                assert(s@ =~= join_commas(next));
            } else {
                assert(join_commas(next) == join_commas(views.take(i as int)) + seq![','] + items[i as int]@);
                assert(s@ =~= before + seq![','] + items[i as int]@);
            }
        }
        i = i + 1;
    }
    proof {
        assert(views.take(i as int) =~= views);
    }
    s
}

/// What has been seen among the first names once one more is counted in.
proof fn lemma_seen_step(hs: Seq<Seq<char>>, n: int)
    requires
        0 <= n < hs.len(),
    ensures
        forall|q: Seq<char>, w: u32|
            seen(hs, n + 1, q, w) <==> seen(hs, n, q, w) || name_is(hs, n, q, w),
{
    assert forall|q: Seq<char>, w: u32|
        seen(hs, n + 1, q, w) <==> seen(hs, n, q, w) || name_is(hs, n, q, w) by {
        if seen(hs, n + 1, q, w) {
            let i = choose|i: int| i < n + 1 && #[trigger] name_is(hs, i, q, w);
            if i < n {
                assert(seen(hs, n, q, w));
            }
        }
        if seen(hs, n, q, w) {
            let i = choose|i: int| i < n && #[trigger] name_is(hs, i, q, w);
            assert(i < n + 1 && name_is(hs, i, q, w));
        }
    }
}

/// Writes host names as an expression. Names that end in no digit come first,
/// in the order in which they come; then, in the order of their prefixes, the
/// names that end in digits, those of one prefix as one entry with the numbers
/// written as ranges.
pub fn collapse_hosts(hosts: Vec<&str>) -> (res: Result<String, Error>)
    ensures
        ({
            let hs = str_views(hosts@);
            let bad = first_bad(hs, 0);
            if bad < hs.len() {
                res matches Err(e) && refuses(e, hs[bad])
            } else {
                res matches Ok(out) && is_grouping(grouping(hs), hs) && out@ == collapsed(hs)
            }
        }),
{
    let ghost hs = str_views(hosts@);
    let mut hostlist_elems: Vec<String> = Vec::new();
    let mut groups: Vec<(String, Vec<u32>)> = Vec::new();
    let mut i: usize = 0;
    proof {
        assert(hs.take(0) =~= Seq::<Seq<char>>::empty());
        assert(text_views(hostlist_elems@) =~= literals(hs.take(0)));
        assert forall|q: Seq<char>, w: u32| has(group_views(groups@), q, w) <==> seen(hs, 0, q, w) by {
            if has(group_views(groups@), q, w) {
                let (a, m) = choose|a: int, m: int| #[trigger]
                    holds_at(group_views(groups@), a, m, q, w);
            }
            if seen(hs, 0, q, w) {
                let k = choose|k: int| k < 0 && #[trigger] name_is(hs, k, q, w);
            }
        }
    }
    while i < hosts.len()
        invariant
            i <= hosts.len(),
            hs == str_views(hosts@),
            first_bad(hs, 0) == first_bad(hs, i as int),
            text_views(hostlist_elems@) == literals(hs.take(i as int)),
            ordered_groups(group_views(groups@)),
            forall|q: Seq<char>, w: u32|
                has(group_views(groups@), q, w) <==> seen(hs, i as int, q, w),
        decreases hosts.len() - i,
    {
        let host = hosts[i];
        let ghost lits = text_views(hostlist_elems@);
        let ghost g = group_views(groups@);
        proof {
            assert(hs[i as int] == host@);
            let next = hs.take(i + 1);
            assert(next.drop_last() =~= hs.take(i as int));
            assert(next.last() == host@);
            lemma_seen_step(hs, i as int);
        }
        match HostlistParser::parse_simple_hostname(host) {
            Err(e) => {
                return Err(e);
            },
            Ok((prefix, suffix)) => {
                match suffix {
                    None => {
                        proof {
                            lemma_suffix_start_bounds(host@);
                            assert(prefix@ =~= host@);
                        }
                        hostlist_elems.push(prefix);
                        proof {
                            assert(text_views(hostlist_elems@) =~= lits.push(host@));
                            assert forall|q: Seq<char>, w: u32|
                                has(group_views(groups@), q, w) <==> seen(hs, i + 1, q, w) by {
                                assert(!name_is(hs, i as int, q, w));
                                assert(has(g, q, w) <==> seen(hs, i as int, q, w));
                                assert(seen(hs, i + 1, q, w) <==> seen(hs, i as int, q, w)
                                    || name_is(hs, i as int, q, w));
                            }
                        }
                    },
                    Some(v) => {
                        let ghost p = prefix@;
                        add_to_groups(&mut groups, prefix, v);
                        proof {
                            let g2 = group_views(groups@);
                            assert forall|q: Seq<char>, w: u32|
                                has(g2, q, w) <==> seen(hs, i + 1, q, w) by {
                                assert(name_is(hs, i as int, q, w) <==> (q == p && w == v));
                                assert(has(g2, q, w) <==> has(g, q, w) || (q == p && w == v));
                                assert(has(g, q, w) <==> seen(hs, i as int, q, w));
                                assert(seen(hs, i + 1, q, w) <==> seen(hs, i as int, q, w)
                                    || name_is(hs, i as int, q, w));
                            }
                        }
                    },
                }
            },
        }
        i = i + 1;
    }
    proof {
        assert(hs.take(i as int) =~= hs);
    }
    let ghost lits = text_views(hostlist_elems@);
    let ghost g = group_views(groups@);
    let mut j: usize = 0;
    proof {
        assert(group_texts(g).take(0) =~= Seq::<Seq<char>>::empty());
        assert(lits + group_texts(g).take(0) =~= lits);
    }
    while j < groups.len()
        invariant
            j <= groups.len(),
            g == group_views(groups@),
            text_views(hostlist_elems@) == lits + group_texts(g).take(j as int),
        decreases groups.len() - j,
    {
        let ghost before = text_views(hostlist_elems@);
        let mut host = groups[j].0.clone();
        let numbers = collapse_range(&groups[j].1);
        host.append(numbers.as_str());
        hostlist_elems.push(host);
        proof {
            assert(g[j as int] == (groups[j as int].0@, groups[j as int].1@));
            assert(text_views(hostlist_elems@) =~= before.push(group_texts(g)[j as int]));
            assert(group_texts(g).take(j + 1) =~= group_texts(g).take(j as int).push(
                group_texts(g)[j as int],
            ));
            assert(text_views(hostlist_elems@) =~= lits + group_texts(g).take(j + 1));
        }
        j = j + 1;
    }
    proof {
        assert(group_texts(g).take(j as int) =~= group_texts(g));
        assert(is_grouping(g, hs));
        lemma_grouping_unique(g, grouping(hs), hs);
    }
    Ok(join_with_commas(&hostlist_elems))
}

/// The runs of numbers to which a run `lo..=hi` is added that touches none of
/// them are those runs and `(lo, hi)`.
proof fn lemma_runs_append(head: Seq<u32>, lo: u32, hi: u32)
    requires
        lo <= hi,
        runs(head).len() > 0 ==> runs(head).last().1 + 1 < lo,
    ensures
        runs(head + interval_seq(lo as int, hi as int)) == runs(head).push((lo, hi)),
    decreases hi - lo,
{
    let r = runs(head);
    let whole = head + interval_seq(lo as int, hi as int);
    if lo == hi {
        assert(whole =~= head.push(lo));
        assert(whole.drop_last() =~= head);
    } else {
        let shorter = head + interval_seq(lo as int, hi - 1);
        lemma_runs_append(head, lo, (hi - 1) as u32);
        assert(whole =~= shorter.push(hi));
        assert(whole.drop_last() =~= shorter);
        assert(whole.last() == hi);
        let rs = runs(shorter);
        assert(rs == r.push((lo, (hi - 1) as u32)));
        assert(rs.drop_last() =~= r);
        assert(rs.last() == (lo, (hi - 1) as u32));
    }
}

/// The runs of the numbers of a canonical list of intervals are the intervals.
pub proof fn lemma_runs_of_values(ivs: Seq<(u32, u32)>)
    requires
        canonical(ivs),
    ensures
        runs(values(ivs)) == ivs,
    decreases ivs.len(),
{
    if ivs.len() == 0 {
        assert(runs(values(ivs)) =~= ivs);
    } else {
        let init = ivs.drop_last();
        let last = ivs.last();
        lemma_canonical_prefix(ivs, ivs.len() - 1);
        assert(ivs.take(ivs.len() - 1) =~= init);
        lemma_runs_of_values(init);
        assert(last == ivs[ivs.len() - 1]);
        if init.len() > 0 {
            assert(init.last() == ivs[init.len() - 1]);
            assert(ivs[init.len() - 1].1 + 1 < ivs[ivs.len() - 1].0);
        }
        lemma_runs_append(values(init), last.0, last.1);
        assert(init.push(last) =~= ivs);
    }
}

/// Where the digits at the end of a text start that is made of a text ending in
/// no digit and of digits.
proof fn lemma_suffix_of_joined(p: Seq<char>, d: Seq<char>)
    requires
        p.len() == 0 || !is_digit(p.last()),
        forall|k: int| 0 <= k < d.len() ==> is_digit(#[trigger] d[k]),
    ensures
        suffix_start(p + d) == p.len(),
    decreases d.len(),
{
    let h = p + d;
    if d.len() == 0 {
        assert(h =~= p);
    } else {
        assert(h.last() == d[d.len() - 1]);
        assert(h.drop_last() =~= p + d.drop_last());
        assert forall|k: int| 0 <= k < d.drop_last().len() implies is_digit(
            #[trigger] d.drop_last()[k],
        ) by {
            assert(d.drop_last()[k] == d[k]);
        }
        lemma_suffix_of_joined(p, d.drop_last());
    }
}

/// The names of text `p` followed by each number of a set, in the order of the
/// numbers.
pub open spec fn numbered_names(p: Seq<char>, vals: Seq<u32>) -> Seq<Seq<char>> {
    Seq::new(vals.len(), |k: int| p + decimal(vals[k] as nat))
}

/// The names of the entry `p[..]` are `p` followed by each number of the set.
proof fn lemma_names_of_numbered(p: Seq<char>, ivs: Seq<(u32, u32)>)
    requires
        values(ivs).len() >= 1,
    ensures
        names(seq![Part::Text(p), Part::Numbers(ivs)]) == numbered_names(p, values(ivs)),
        parts_text(seq![Part::Text(p), Part::Numbers(ivs)]) == p + range_text(ivs),
{
    let e = seq![Part::Text(p), Part::Numbers(ivs)];
    let t = seq![Part::Text(p)];
    let vals = values(ivs);
    let n = vals.len() as int;
    assert(e.drop_last() =~= t);
    assert(t.drop_last() =~= Seq::<Part>::empty());
    assert(e.last() == Part::Numbers(ivs));
    assert(t.last() == Part::Text(p));
    assert(cardinality(t.drop_last()) == 1);
    assert(cardinality(t) == 1) by {
        assert(1 * 1 == 1);
    }
    assert(cardinality(e) == n) by {
        assert(1 * n == n);
    }
    assert(parts_text(t) =~= p) by {
        assert(parts_text(t.drop_last()) =~= Seq::<char>::empty());
    }
    assert(parts_text(e) =~= p + range_text(ivs));
    assert(names(e) =~= numbered_names(p, vals)) by {
        assert forall|k: int| 0 <= k < n implies name_at(e, k) == p + decimal(vals[k] as nat) by {
            lemma_basic_div(k, n);
            lemma_small_mod(k as nat, n as nat);
            assert(0int / 1 == 0);
            assert(name_at(t.drop_last(), 0) =~= Seq::<char>::empty());
            assert(name_at(t, 0) =~= p);
        }
    }
}

/// Whether the entry is a text that ends in no digit, followed by one set of two
/// numbers or more: `p[..]`.
pub open spec fn is_numbered_entry(e: Seq<Part>) -> bool {
    &&& e.len() == 2
    &&& e[0] is Text
    &&& e[1] is Numbers
    &&& e[0]->Text_0.len() == 0 || !is_digit(e[0]->Text_0.last())
    &&& canonical(e[1]->Numbers_0)
    &&& values(e[1]->Numbers_0).len() >= 2
}

/// Names that all end in digits have none among them that ends in no digit.
proof fn lemma_literals_none(hs: Seq<Seq<char>>)
    requires
        forall|x: int| 0 <= x < hs.len() ==> hostname_suffix(#[trigger] hs[x]) is Some,
    ensures
        literals(hs) == Seq::<Seq<char>>::empty(),
    decreases hs.len(),
{
    if hs.len() > 0 {
        let init = hs.drop_last();
        assert forall|x: int| 0 <= x < init.len() implies hostname_suffix(#[trigger] init[x]) is Some by {
            assert(init[x] == hs[x]);
        }
        lemma_literals_none(init);
        assert(hs.last() == hs[hs.len() - 1]);
    }
}

/// An expression is written as the writings of its entries with commas between
/// them.
proof fn lemma_expression_is_joined(es: Seq<Seq<Part>>)
    ensures
        expression_text(es) == join_commas(Seq::new(es.len(), |i: int| parts_text(es[i]))),
    decreases es.len(),
{
    let texts = Seq::new(es.len(), |i: int| parts_text(es[i]));
    if es.len() > 0 {
        let init = es.drop_last();
        lemma_expression_is_joined(init);
        assert(texts.drop_last() =~= Seq::new(init.len(), |i: int| parts_text(init[i])));
        assert(texts.last() == parts_text(es.last()));
        assert(texts[0] == parts_text(es[0]));
    }
}

/// The prefix and the number of a name that is text `p` followed by number `v`.
proof fn lemma_numbered_name(p: Seq<char>, v: u32)
    requires
        p.len() == 0 || !is_digit(p.last()),
    ensures
        hostname_prefix(p + decimal(v as nat)) == p,
        hostname_suffix(p + decimal(v as nat)) == Some(v as nat),
{
    let d = decimal(v as nat);
    lemma_decimal_digits(v as nat);
    lemma_decimal_round_trip(v as nat);
    lemma_suffix_of_joined(p, d);
    assert((p + d).subrange(0, p.len() as int) =~= p);
    assert((p + d).subrange(p.len() as int, (p + d).len() as int) =~= d);
}

/// The groups of the names of entries `p[..]`: for each entry its text and the
/// numbers of its set.
pub open spec fn groups_of(es: Seq<Seq<Part>>) -> Seq<(Seq<char>, Seq<u32>)> {
    Seq::new(es.len(), |i: int| (es[i][0]->Text_0, values(es[i][1]->Numbers_0)))
}

/// The names of entries `p[..]` in canonical order are grouped entry by entry.
proof fn lemma_groups_of(es: Seq<Seq<Part>>)
    requires
        sorted(es),
        distinct_shapes(es),
        forall|i: int| 0 <= i < es.len() ==> is_numbered_entry(#[trigger] es[i]),
    ensures
        is_grouping(groups_of(es), all_names(es)),
        forall|x: int|
            0 <= x < all_names(es).len() ==> hostname_suffix(#[trigger] all_names(es)[x]) is Some,
{
    let g = groups_of(es);
    let nm = Seq::new(es.len(), |i: int| names(es[i]));
    let hs = all_names(es);
    assert forall|i: int| 0 <= i < es.len() implies #[trigger] nm[i] == numbered_names(
        g[i].0,
        g[i].1,
    ) by {
        assert(is_numbered_entry(es[i]));
        let p = es[i][0]->Text_0;
        let ivs = es[i][1]->Numbers_0;
        assert(es[i] =~= seq![Part::Text(p), Part::Numbers(ivs)]);
        lemma_names_of_numbered(p, ivs);
    }
    // where each name comes from, and what it is made of
    assert forall|x: int| 0 <= x < hs.len() implies hostname_suffix(#[trigger] hs[x]) is Some by {
        let place = lemma_concat_all_item(nm, x);
        assert(is_numbered_entry(es[place.0]));
        assert(nm[place.0] == numbered_names(g[place.0].0, g[place.0].1));
        lemma_numbered_name(g[place.0].0, g[place.0].1[place.1]);
    }
    assert forall|q: Seq<char>, w: u32| has(g, q, w) <==> seen(hs, hs.len() as int, q, w) by {
        if has(g, q, w) {
            let (k, m) = choose|k: int, m: int| #[trigger] holds_at(g, k, m, q, w);
            assert(is_numbered_entry(es[k]));
            assert(nm[k] == numbered_names(g[k].0, g[k].1));
            let x = lemma_concat_all_has(nm, k, m);
            lemma_numbered_name(q, w);
            assert(name_is(hs, x, q, w));
        }
        if seen(hs, hs.len() as int, q, w) {
            let x = choose|x: int| x < hs.len() && #[trigger] name_is(hs, x, q, w);
            let place = lemma_concat_all_item(nm, x);
            assert(is_numbered_entry(es[place.0]));
            assert(nm[place.0] == numbered_names(g[place.0].0, g[place.0].1));
            lemma_numbered_name(g[place.0].0, g[place.0].1[place.1]);
            assert(g[place.0].1[place.1] as nat == w as nat);
            assert(holds_at(g, place.0, place.1, q, w));
        }
    }
    // the groups are in the order of the entries
    lemma_part_order();
    lemma_char_order();
    assert forall|i: int, j: int| 0 <= i < j < g.len() implies lex_compare(
        (#[trigger] g[i]).0,
        (#[trigger] g[j]).0,
        char_order(),
    ) < 0 by {
        assert(is_numbered_entry(es[i]) && is_numbered_entry(es[j]));
        assert(entry_le()(es[i], es[j]));
        let c = lex_compare(g[i].0, g[j].0, char_order());
        assert(part_order()(es[i][0], es[j][0]) == c);
        lemma_lex_flip(g[i].0, g[j].0, char_order());
        if c == 0 {
            assert(shapes(es[i]) =~= shapes(es[j]));
            assert(shapes(es[i]).drop_last().drop_last() =~= Seq::<Shape>::empty());
            assert(slot_count(shapes(es[i]).drop_last().drop_last()) == 0);
            assert(slot_count(shapes(es[i]).drop_last()) == 0);
            assert(slot_count(shapes(es[i])) == 1);
            assert(false);
        }
    }
    assert forall|k: int| 0 <= k < g.len() implies (#[trigger] g[k]).1.len() > 0 by {
        assert(is_numbered_entry(es[k]));
    }
    assert forall|k: int, a: int, b: int|
        0 <= k < g.len() && 0 <= a < b < g[k].1.len() implies #[trigger] g[k].1[a]
        < #[trigger] g[k].1[b] by {
        assert(is_numbered_entry(es[k]));
        let ivs = es[k][1]->Numbers_0;
        lemma_canonical_prefix(ivs, ivs.len() as int);
        lemma_values_ascending(ivs);
    }
}

/// Collapsing undoes expanding for expressions made of entries `p[..]`: where
/// each entry of an expression in canonical form is a text that ends in no digit
/// followed by one set of two numbers or more, the names of the expression
/// collapse to the expression as it is written.
pub proof fn lemma_round_trip(es: Seq<Seq<Part>>)
    requires
        sorted(es),
        distinct_shapes(es),
        forall|i: int| 0 <= i < es.len() ==> is_numbered_entry(#[trigger] es[i]),
    ensures
        collapsed(all_names(es)) == expression_text(es),
{
    let hs = all_names(es);
    let g = groups_of(es);
    lemma_groups_of(es);
    lemma_grouping_unique(g, grouping(hs), hs);
    lemma_literals_none(hs);
    lemma_expression_is_joined(es);
    let texts = Seq::new(es.len(), |i: int| parts_text(es[i]));
    assert(group_texts(g) =~= texts) by {
        assert forall|i: int| 0 <= i < es.len() implies group_texts(g)[i] == texts[i] by {
            assert(is_numbered_entry(es[i]));
            let p = es[i][0]->Text_0;
            let ivs = es[i][1]->Numbers_0;
            assert(es[i] =~= seq![Part::Text(p), Part::Numbers(ivs)]);
            lemma_names_of_numbered(p, ivs);
            lemma_runs_of_values(ivs);
            if ivs.len() == 1 && ivs[0].0 == ivs[0].1 {
                assert(ivs.drop_last() =~= Seq::<(u32, u32)>::empty());
                assert(values(ivs.drop_last()) =~= Seq::<u32>::empty());
            }
        }
    }
    assert(literals(hs) + group_texts(g) =~= texts);
}

} // verus!
