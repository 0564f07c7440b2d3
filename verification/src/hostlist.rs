//! A whole host expression: its entries in canonical order, and the walk through
//! all the names it stands for.

use vstd::prelude::*;
use vstd::seq_lib::*;
use vstd::string::*;
use crate::error::Error;
use crate::hostlistelem::{
    canon_parts, cardinality, checked_cardinality, comp_fresh, comp_wf, first_part_error,
    lemma_same_elem, names, parts_text, same_elem, shape_of, shapes,
    slot_count, string_views,
    Component, HostlistElem, Shape,
};
use crate::order::{
    compare_ranges, compare_text, entry_compare, entry_le, lemma_entry_le_total,
    lemma_entry_order, lex_compare, part_compare, part_order, sorted,
};
use crate::parser::{entry_parts, is_read_entry, parse_expression, HostlistParser};
use crate::readback::{
    canonical_each, distinct_shapes, is_canonical_entry, is_canonical_expression,
    is_canonical_part,
};
use crate::range::{
    canon, canonical, cover_set, lemma_canon_is, lemma_canonical_prefix, lemma_covers_concat,
    lemma_values_len, values,
};
use crate::seqs::{
    concat_all, lemma_concat_all_empty, lemma_concat_all_insert, lemma_concat_all_none,
    lemma_concat_all_remove, lemma_concat_all_step, lemma_concat_all_take,
};
use crate::token::{token_parts, Part};

verus! {

/// The pieces of each template, template by template.
pub open spec fn elem_views(es: Seq<HostlistElem>) -> Seq<Seq<Part>> {
    Seq::new(es.len(), |i: int| es[i]@)
}

/// The names that each template has still to give, template by template.
pub open spec fn elem_remaining(es: Seq<HostlistElem>) -> Seq<Seq<Seq<char>>> {
    Seq::new(es.len(), |i: int| es[i].remaining())
}

/// All names of the entries: those of the first entry, then those of the
/// second, and so on.
pub open spec fn all_names(entries: Seq<Seq<Part>>) -> Seq<Seq<char>> {
    concat_all(Seq::new(entries.len(), |i: int| names(entries[i])))
}

/// How many names the entries stand for between them.
pub open spec fn total_names(entries: Seq<Seq<Part>>) -> nat
    decreases entries.len(),
{
    if entries.len() == 0 {
        0
    } else {
        total_names(entries.drop_last()) + cardinality(entries.last())
    }
}

/// Why an entry is refused: for the first fault among its bounds, or else because
/// a counter cannot hold the number of its names.
pub open spec fn entry_error(parts: Seq<Part>) -> Option<Error> {
    match first_part_error(parts) {
        Some(e) => Some(e),
        None => if checked_cardinality(canon_parts(parts)) is None {
            Some(Error::HostlistTooLarge)
        } else {
            None
        },
    }
}

/// Why the first entry that is refused is refused.
pub open spec fn first_entry_error(entries: Seq<Seq<Part>>) -> Option<Error>
    decreases entries.len(),
{
    if entries.len() == 0 {
        None
    } else {
        match first_entry_error(entries.drop_last()) {
            Some(e) => Some(e),
            None => entry_error(entries.last()),
        }
    }
}

/// The entries with all their bounds in canonical form.
pub open spec fn canon_entries(entries: Seq<Seq<Part>>) -> Seq<Seq<Part>> {
    Seq::new(entries.len(), |i: int| canon_parts(entries[i]))
}

/// The place of the first set of numbers among the shapes from `from` on; the
/// number of shapes where there is none.
pub open spec fn first_slot(sh: Seq<Shape>, from: int) -> int
    decreases sh.len() - from,
{
    if from < 0 || from >= sh.len() {
        sh.len() as int
    } else if sh[from] is Slot {
        from
    } else {
        first_slot(sh, from + 1)
    }
}

/// The place of the first entry of shape `sh` among the entries from `from` on;
/// the number of entries where there is none.
pub open spec fn shape_index(acc: Seq<Seq<Part>>, sh: Seq<Shape>, from: int) -> int
    decreases acc.len() - from,
{
    if from < 0 || from >= acc.len() {
        acc.len() as int
    } else if shapes(acc[from]) == sh {
        from
    } else {
        shape_index(acc, sh, from + 1)
    }
}

/// Entry `a` with the numbers of entry `b` added to its first set of numbers.
pub open spec fn merge_parts(a: Seq<Part>, b: Seq<Part>) -> Seq<Part> {
    let pos = first_slot(shapes(a), 0);
    if pos < a.len() && pos < b.len() {
        match (a[pos], b[pos]) {
            (Part::Numbers(x), Part::Numbers(y)) => a.update(pos, Part::Numbers(canon(x + y))),
            _ => a,
        }
    } else {
        a
    }
}

/// The entries `acc` with entry `e` taken in: where `e` has one set of numbers
/// and an entry of its shape is there already, that entry takes the numbers of
/// `e`; else `e` is added at the end.
pub open spec fn absorb(acc: Seq<Seq<Part>>, e: Seq<Part>) -> Seq<Seq<Part>> {
    let k = shape_index(acc, shapes(e), 0);
    if slot_count(shapes(e)) == 1 && k < acc.len() {
        acc.update(k, merge_parts(acc[k], e))
    } else {
        acc.push(e)
    }
}

/// The entries with those of one shape and one set of numbers merged into one.
pub open spec fn merge_entries(entries: Seq<Seq<Part>>) -> Seq<Seq<Part>>
    decreases entries.len(),
{
    if entries.len() == 0 {
        Seq::empty()
    } else {
        absorb(merge_entries(entries.drop_last()), entries.last())
    }
}

/// The entries of an expression as it is kept: bounds in canonical form,
/// entries of one shape merged, and all in order.
pub open spec fn canonical_entries(entries: Seq<Seq<Part>>) -> Seq<Seq<Part>> {
    merge_entries(canon_entries(entries)).sort_by(entry_le())
}

/// Compares two components.
fn compare_components(a: &Component, b: &Component) -> (r: i8)
    ensures
        r == part_compare(a@, b@),
{
    match (a, b) {
        (Component::Static(x), Component::Static(y)) => compare_text(x.as_str(), y.as_str()),
        (Component::Static(_), Component::Range(_)) => -1,
        (Component::Range(_), Component::Static(_)) => 1,
        (Component::Range(x), Component::Range(y)) => compare_ranges(x, y),
    }
}

/// Compares two templates component by component.
pub fn compare_elems(a: &HostlistElem, b: &HostlistElem) -> (r: i8)
    ensures
        r == entry_compare(a@, b@),
{
    let mut i: usize = 0;
    proof {
        assert(a@.skip(0) =~= a@);
        assert(b@.skip(0) =~= b@);
    }
    while i < a.components.len() && i < b.components.len()
        invariant
            i <= a.components.len(),
            i <= b.components.len(),
            entry_compare(a@, b@) == lex_compare(
                a@.skip(i as int),
                b@.skip(i as int),
                part_order(),
            ),
        decreases a.components.len() - i,
    {
        let c = compare_components(&a.components[i], &b.components[i]);
        proof {
            assert(a@.skip(i as int)[0] == a.components[i as int]@);
            assert(b@.skip(i as int)[0] == b.components[i as int]@);
            assert(a@.skip(i as int).drop_first() =~= a@.skip(i + 1));
            assert(b@.skip(i as int).drop_first() =~= b@.skip(i + 1));
        }
        if c != 0 {
            return c;
        }
        i = i + 1;
    }
    if a.components.len() == b.components.len() {
        0
    } else if i == a.components.len() {
        -1
    } else {
        1
    }
}

/// Every template is well formed and has given no name yet.
pub open spec fn each_ready(es: Seq<HostlistElem>) -> bool {
    forall|i: int| 0 <= i < es.len() ==> (#[trigger] es[i]).wf() && es[i].latest is None
}

/// Puts the templates in order.
fn sort_elems(elems: &mut Vec<HostlistElem>)
    requires
        each_ready(old(elems)@),
        canonical_each(elem_views(old(elems)@)),
        distinct_shapes(elem_views(old(elems)@)),
    ensures
        each_ready(final(elems)@),
        canonical_each(elem_views(final(elems)@)),
        distinct_shapes(elem_views(final(elems)@)),
        sorted(elem_views(final(elems)@)),
        elem_views(final(elems)@).to_multiset() == elem_views(old(elems)@).to_multiset(),
        concat_all(elem_remaining(final(elems)@)).len() == concat_all(
            elem_remaining(old(elems)@),
        ).len(),
{
    let mut i: usize = 0;
    proof {
        assert(elem_views(elems@).take(0) =~= Seq::<Seq<Part>>::empty());
    }
    while i < elems.len()
        invariant
            i <= elems.len(),
            each_ready(elems@),
            canonical_each(elem_views(elems@)),
            distinct_shapes(elem_views(elems@)),
            sorted(elem_views(elems@).take(i as int)),
            elem_views(elems@).to_multiset() == elem_views(old(elems)@).to_multiset(),
            concat_all(elem_remaining(elems@)).len() == concat_all(
                elem_remaining(old(elems)@),
            ).len(),
        decreases elems.len() - i,
    {
        let ghost s0 = elems@;
        let x = elems.remove(i);
        let ghost s1 = elems@;
        let mut k: usize = 0;
        while k < i && compare_elems(&x, &elems[k]) >= 0
            invariant
                k <= i,
                i <= elems.len(),
                elems@ == s1,
                forall|m: int| 0 <= m < k ==> entry_compare(x@, (#[trigger] elems[m])@) >= 0,
            decreases i - k,
        {
            k = k + 1;
        }
        elems.insert(k, x);
        proof {
            broadcast use {to_multiset_remove, to_multiset_insert};

            let s2 = elems@;
            let v0 = elem_views(s0);
            let v1 = elem_views(s1);
            let v2 = elem_views(s2);
            assert(v1 =~= v0.remove(i as int));
            assert(v2 =~= v1.insert(k as int, x@));
            assert(v0[i as int] == x@);
            assert(v0.to_multiset().count(x@) > 0) by {
                broadcast use to_multiset_contains;

                assert(v0.contains(x@));
            }
            assert(v2.to_multiset() =~= v0.to_multiset());
            let r0 = elem_remaining(s0);
            let r1 = elem_remaining(s1);
            let r2 = elem_remaining(s2);
            assert(r1 =~= r0.remove(i as int));
            assert(r2 =~= r1.insert(k as int, x.remaining()));
            lemma_concat_all_remove(r0, i as int);
            lemma_concat_all_insert(r1, k as int, x.remaining());
            let from = |m: int|
                if m < k {
                    m
                } else if m == k {
                    i as int
                } else if m <= i {
                    m - 1
                } else {
                    m
                };
            assert forall|m: int| 0 <= m < s2.len() implies #[trigger] s2[m] == s0[from(m)] by {}
            assert forall|m: int| 0 <= m < s2.len() implies (#[trigger] s2[m]).wf()
                && s2[m].latest is None by {
                assert(s2[m] == s0[from(m)]);
            }
            assert forall|m: int| 0 <= m < v2.len() implies is_canonical_entry(#[trigger] v2[m]) by {
                assert(s2[m] == s0[from(m)]);
                assert(is_canonical_entry(v0[from(m)]));
            }
            assert forall|a: int, b: int|
                0 <= a < v2.len() && 0 <= b < v2.len() && a != b && slot_count(
                    shapes(#[trigger] v2[a]),
                ) == 1 implies shapes(v2[a]) != shapes(#[trigger] v2[b]) by {
                assert(s2[a] == s0[from(a)]);
                assert(s2[b] == s0[from(b)]);
                assert(v2[a] == v0[from(a)]);
                assert(v2[b] == v0[from(b)]);
                assert(from(a) != from(b));
            }
            let t0 = v0.take(i as int);
            let t2 = v2.take(i + 1);
            assert forall|a: int, b: int| 0 <= a < b < t2.len() implies #[trigger] entry_le()(
                t2[a],
                t2[b],
            ) by {
                assert(s2[a] == s0[from(a)]);
                assert(s2[b] == s0[from(b)]);
                let fa = from(a);
                let fb = from(b);
                if b == k {
                    assert(s1[a] == s0[a]);
                    assert(entry_compare(x@, s1[a]@) >= 0);
                    lemma_entry_order(x@, s1[a]@, x@);
                } else if a == k {
                    assert(k < i);
                    assert(s1[k as int] == s0[k as int]);
                    assert(entry_compare(x@, s0[k as int]@) < 0);
                    if fb > k {
                        assert(entry_le()(t0[k as int], t0[fb]));
                        lemma_entry_order(x@, s0[k as int]@, s0[fb]@);
                    }
                } else {
                    assert(entry_le()(t0[fa], t0[fb]));
                }
            }
        }
        i = i + 1;
    }
    proof {
        assert(elem_views(elems@).take(i as int) =~= elem_views(elems@));
    }
}

/// Where the first set of numbers stands among the shapes from `from` on.
proof fn lemma_first_slot(sh: Seq<Shape>, from: int)
    requires
        0 <= from <= sh.len(),
    ensures
        from <= first_slot(sh, from) <= sh.len(),
        first_slot(sh, from) < sh.len() ==> sh[first_slot(sh, from)] is Slot,
        forall|i: int| from <= i < first_slot(sh, from) ==> !((#[trigger] sh[i]) is Slot),
    decreases sh.len() - from,
{
    if from < sh.len() && !(sh[from] is Slot) {
        lemma_first_slot(sh, from + 1);
    }
}

/// Shapes without a set of numbers count none.
proof fn lemma_no_slot(sh: Seq<Shape>)
    requires
        forall|i: int| 0 <= i < sh.len() ==> !((#[trigger] sh[i]) is Slot),
    ensures
        slot_count(sh) == 0,
    decreases sh.len(),
{
    if sh.len() > 0 {
        let init = sh.drop_last();
        assert forall|i: int| 0 <= i < init.len() implies !((#[trigger] init[i]) is Slot) by {
            assert(init[i] == sh[i]);
        }
        lemma_no_slot(init);
        assert(sh.last() == sh[sh.len() - 1]);
    }
}

/// Where the first entry of shape `sh` stands among the entries from `from` on.
pub proof fn lemma_shape_index(acc: Seq<Seq<Part>>, sh: Seq<Shape>, from: int)
    requires
        0 <= from <= acc.len(),
    ensures
        from <= shape_index(acc, sh, from) <= acc.len(),
        shape_index(acc, sh, from) < acc.len() ==> shapes(acc[shape_index(acc, sh, from)]) == sh,
        forall|i: int| from <= i < shape_index(acc, sh, from) ==> shapes(#[trigger] acc[i]) != sh,
    decreases acc.len() - from,
{
    if from < acc.len() && shapes(acc[from]) != sh {
        lemma_shape_index(acc, sh, from + 1);
    }
}

/// A counter holds the number of names of an entry with at most one set of
/// numbers.
proof fn lemma_one_slot_fits(ps: Seq<Part>)
    requires
        slot_count(shapes(ps)) <= 1,
        forall|i: int|
            0 <= i < ps.len() ==> ((#[trigger] ps[i]) matches Part::Numbers(ivs) ==> canonical(
                ivs,
            )),
    ensures
        checked_cardinality(ps) matches Some(c) && c <= u32::MAX && (slot_count(shapes(ps)) == 0
            ==> c == 1),
    decreases ps.len(),
{
    if ps.len() > 0 {
        let init = ps.drop_last();
        assert(shapes(ps).drop_last() =~= shapes(init));
        assert(shapes(ps).last() == shape_of(ps.last()));
        assert forall|i: int| 0 <= i < init.len() implies ((#[trigger] init[i]) matches Part::Numbers(
            ivs,
        ) ==> canonical(ivs)) by {
            assert(init[i] == ps[i]);
        }
        lemma_one_slot_fits(init);
        let c = checked_cardinality(init)->0;
        assert(ps.last() == ps[ps.len() - 1]);
        match ps.last() {
            Part::Text(_) => {
                assert(c * 1 == c);
            },
            Part::Numbers(ivs) => {
                assert(c == 1);
                lemma_canonical_prefix(ivs, ivs.len() as int);
                lemma_values_len(ivs);
                assert(1 * values(ivs).len() == values(ivs).len());
            },
        }
    }
}

/// An error among the first entries is the first error among all of them.
proof fn lemma_entry_error_stays(entries: Seq<Seq<Part>>, n: int)
    requires
        0 <= n <= entries.len(),
        first_entry_error(entries.take(n)) is Some,
    ensures
        first_entry_error(entries) == first_entry_error(entries.take(n)),
    decreases entries.len() - n,
{
    if n < entries.len() {
        assert(entries.take(n + 1).drop_last() =~= entries.take(n));
        lemma_entry_error_stays(entries, n + 1);
    } else {
        assert(entries.take(n) =~= entries);
    }
}

/// The first entries stand for no more names than all of them.
proof fn lemma_total_names_take(entries: Seq<Seq<Part>>, n: int)
    requires
        0 <= n <= entries.len(),
    ensures
        total_names(entries.take(n)) <= total_names(entries),
    decreases entries.len() - n,
{
    if n < entries.len() {
        assert(entries.take(n + 1).drop_last() =~= entries.take(n));
        lemma_total_names_take(entries, n + 1);
    } else {
        assert(entries.take(n) =~= entries);
    }
}

/// Templates that have given no name yet have all their names to give.
proof fn lemma_ready_remaining(es: Seq<HostlistElem>)
    requires
        each_ready(es),
    ensures
        concat_all(elem_remaining(es)) == all_names(elem_views(es)),
        concat_all(elem_remaining(es)).len() == total_names(elem_views(es)),
    decreases es.len(),
{
    let r = elem_remaining(es);
    let v = elem_views(es);
    let nm = Seq::new(v.len(), |i: int| names(v[i]));
    assert(r =~= nm) by {
        assert forall|i: int| 0 <= i < es.len() implies r[i] == nm[i] by {
            assert(es[i].wf() && es[i].latest is None);
            assert(es[i].remaining() =~= names(es[i]@));
        }
    }
    if es.len() > 0 {
        let init = es.drop_last();
        assert forall|i: int| 0 <= i < init.len() implies (#[trigger] init[i]).wf()
            && init[i].latest is None by {
            assert(init[i] == es[i]);
        }
        lemma_ready_remaining(init);
        assert(elem_remaining(es).drop_last() =~= elem_remaining(init));
        assert(elem_views(es).drop_last() =~= elem_views(init));
        assert(es.last() == es[es.len() - 1]);
        assert(es.last().wf());
    }
}

/// Takes a template in among those gathered so far: where it has one set of
/// numbers and one of its shape is there already, that one takes its numbers;
/// else it is added at the end.
fn absorb_elem(elems: &mut Vec<HostlistElem>, elem: HostlistElem) -> (res: Result<(), Error>)
    requires
        each_ready(old(elems)@),
        canonical_each(elem_views(old(elems)@)),
        distinct_shapes(elem_views(old(elems)@)),
        elem.wf(),
        elem.latest is None,
        is_canonical_entry(elem@),
    ensures
        res is Ok,
        each_ready(final(elems)@),
        canonical_each(elem_views(final(elems)@)),
        distinct_shapes(elem_views(final(elems)@)),
        elem_views(final(elems)@) == absorb(elem_views(old(elems)@), elem@),
{
    let ghost acc = elem_views(elems@);
    let ghost e = elem@;
    let fingerprint = elem.fingerprint();
    if fingerprint.count_ranges() == 1 {
        let mut k: usize = 0;
        let mut found = false;
        while !found && k < elems.len()
            invariant
                k <= elems.len(),
                elems@ == old(elems)@,
                acc == elem_views(elems@),
                fingerprint@ == shapes(e),
                shape_index(acc, shapes(e), 0) == shape_index(acc, shapes(e), k as int),
                found ==> k < elems.len() && shapes(acc[k as int]) == shapes(e),
            decreases elems.len() - k, !found as int,
        {
            let other = elems[k].fingerprint();
            if other.same_as(&fingerprint) {
                found = true;
            } else {
                k = k + 1;
            }
        }
        if found {
            // the place of the set of numbers, which is the same in both
            let mut pos: usize = 0;
            while pos < elem.components.len() && !is_range(&elem.components[pos])
                invariant
                    pos <= elem.components.len(),
                    e == elem@,
                    first_slot(shapes(e), 0) == first_slot(shapes(e), pos as int),
                decreases elem.components.len() - pos,
            {
                pos = pos + 1;
            }
            proof {
                lemma_first_slot(shapes(e), 0);
                if pos == elem.components.len() {
                    lemma_no_slot(shapes(e));
                }
                assert(pos < e.len());
                assert(shapes(acc[k as int])[pos as int] == shapes(e)[pos as int]);
                assert(elems[k as int].wf());
                assert(comp_wf(elems[k as int].components[pos as int]));
                assert(comp_fresh(elems[k as int].components[pos as int]));
                assert(comp_wf(elem.components[pos as int]));
            }
            let ghost before = elems@;
            let ghost target_before = elems[k as int];
            match &elem.components[pos] {
                Component::Range(add) => {
                    match &mut elems[k].components[pos] {
                        Component::Range(range) => {
                            let ghost x = range@;
                            match range.merge(add) {
                                Ok(_) => {},
                                Err(err) => {
                                    return Err(err);
                                },
                            }
                            proof {
                                lemma_covers_concat(x, add@);
                                lemma_canon_is(range@, x + add@);
                                // the set is not empty: it holds what it held
                                assert(is_canonical_part(acc[k as int][pos as int]));
                                assert(x.len() > 0);
                                assert(x[0].0 <= x[0].0 <= x[0].1);
                                assert(cover_set(x).contains(x[0].0 as int));
                                assert(range.set().contains(x[0].0 as int));
                                assert(range@.len() > 0);
                            }
                        },
                        Component::Static(_) => {},
                    }
                },
                Component::Static(_) => {},
            }
            proof {
                let t = elems[k as int];
                assert(t.components.len() == target_before.components.len());
                assert forall|i: int| 0 <= i < t.components.len() && i != pos implies #[trigger] t.components[i]
                    == target_before.components[i] by {}
                assert(t@ =~= merge_parts(acc[k as int], e));
                assert forall|i: int| 0 <= i < t.components.len() implies comp_wf(
                    #[trigger] t.components[i],
                ) && comp_fresh(t.components[i]) by {
                    if i != pos {
                        assert(comp_wf(target_before.components[i]));
                        assert(comp_fresh(target_before.components[i]));
                    }
                }
                assert(shapes(t@) =~= shapes(e));
                assert forall|i: int| 0 <= i < t@.len() implies ((#[trigger] t@[i]) matches Part::Numbers(
                    ivs,
                ) ==> canonical(ivs)) by {
                    assert(comp_wf(t.components[i]));
                }
                lemma_one_slot_fits(t@);
            }
            let ghost merged = elems[k as int]@;
            proof {
                assert(is_canonical_entry(acc[k as int]));
                assert(is_canonical_entry(merged)) by {
                    let a = acc[k as int];
                    assert forall|i: int| 0 <= i < merged.len() implies is_canonical_part(
                        #[trigger] merged[i],
                    ) by {
                        if i != pos {
                            assert(merged[i] == a[i]);
                            assert(is_canonical_part(a[i]));
                        } else {
                            assert(comp_wf(elems[k as int].components[pos as int]));
                        }
                    }
                    assert forall|i: int| 0 <= i < merged.len() - 1 implies !((
                    #[trigger] merged[i]) is Text && merged[i + 1] is Text) by {
                        assert(shapes(merged)[i] == shapes(a)[i]);
                        assert(shapes(merged)[i + 1] == shapes(a)[i + 1]);
                        assert(!(a[i] is Text && a[i + 1] is Text));
                    }
                    assert(shapes(merged)[0] == shapes(a)[0]);
                }
            }
            let res = elems[k].update_len();
            proof {
                assert forall|i: int| 0 <= i < elems.len() && i != k implies #[trigger] elems[i]
                    == before[i] by {}
                let v2 = elem_views(elems@);
                assert(v2 =~= acc.update(k as int, merge_parts(acc[k as int], e)));
                lemma_shape_index(acc, shapes(e), k as int);
                assert forall|i: int| 0 <= i < v2.len() implies is_canonical_entry(#[trigger] v2[i]) by {
                    if i != k {
                        assert(v2[i] == acc[i]);
                        assert(is_canonical_entry(acc[i]));
                    }
                }
                assert forall|a: int, b: int|
                    0 <= a < v2.len() && 0 <= b < v2.len() && a != b && slot_count(
                        shapes(#[trigger] v2[a]),
                    ) == 1 implies shapes(v2[a]) != shapes(#[trigger] v2[b]) by {
                    assert(shapes(v2[a]) == shapes(acc[a]));
                    assert(shapes(v2[b]) == shapes(acc[b]));
                    assert(slot_count(shapes(acc[a])) == 1);
                }
            }
            return res;
        }
        proof {
            lemma_shape_index(acc, shapes(e), k as int);
        }
    }
    elems.push(elem);
    proof {
        let v2 = elem_views(elems@);
        assert(v2 =~= acc.push(e));
        assert forall|i: int| 0 <= i < elems.len() implies (#[trigger] elems[i]).wf()
            && elems[i].latest is None by {
            if i < old(elems).len() {
                assert(elems[i] == old(elems)[i]);
            }
        }
        assert forall|i: int| 0 <= i < v2.len() implies is_canonical_entry(#[trigger] v2[i]) by {
            if i < acc.len() {
                assert(v2[i] == acc[i]);
                assert(is_canonical_entry(acc[i]));
            }
        }
        lemma_shape_index(acc, shapes(e), 0);
        assert forall|a: int, b: int|
            0 <= a < v2.len() && 0 <= b < v2.len() && a != b && slot_count(
                shapes(#[trigger] v2[a]),
            ) == 1 implies shapes(v2[a]) != shapes(#[trigger] v2[b]) by {
            if a < acc.len() && b < acc.len() {
                assert(v2[a] == acc[a] && v2[b] == acc[b]);
            } else if a < acc.len() {
                assert(v2[a] == acc[a]);
                assert(v2[b] == e);
                if slot_count(shapes(e)) == 1 {
                    assert(shapes(acc[a]) != shapes(e));
                }
            } else {
                assert(v2[a] == e);
                assert(v2[b] == acc[b]);
                assert(shapes(acc[b]) != shapes(e));
            }
        }
    }
    Ok(())
}

/// Whether the component is a set of numbers.
fn is_range(c: &Component) -> (b: bool)
    ensures
        b == (c@ is Numbers),
        b == (shape_of(c@) is Slot),
{
    match c {
        Component::Range(_) => true,
        Component::Static(_) => false,
    }
}

/// The templates are, one by one, as they were: the same components in the
/// same state, the same name given last, the same count of names to come.
pub open spec fn untouched(now: Seq<HostlistElem>, before: Seq<HostlistElem>) -> bool {
    &&& now.len() == before.len()
    &&& forall|i: int|
        0 <= i < now.len() ==> (#[trigger] now[i]).components@ == before[i].components@
            && now[i].latest == before[i].latest && now[i].len == before[i].len
}

/// The templates are walked through in turn: after one that has names left, none
/// has given a name yet.
pub open spec fn in_turn(es: Seq<HostlistElem>) -> bool {
    forall|i: int, j: int|
        0 <= i < j < es.len() && (#[trigger] es[i]).len > 0 ==> (#[trigger] es[j]).latest is None
}

/// The names still to come are the last of all names: what the walk has given
/// are the first names, and what it will give are the rest, in the same order.
pub proof fn lemma_remaining_is_rest(es: Seq<HostlistElem>)
    requires
        forall|i: int| 0 <= i < es.len() ==> (#[trigger] es[i]).wf(),
        in_turn(es),
    ensures
        concat_all(elem_remaining(es)).len() <= all_names(elem_views(es)).len(),
        concat_all(elem_remaining(es)) == all_names(elem_views(es)).skip(
            all_names(elem_views(es)).len() - concat_all(elem_remaining(es)).len(),
        ),
    decreases es.len(),
{
    let rem = elem_remaining(es);
    let views = elem_views(es);
    let nm = Seq::new(views.len(), |i: int| names(views[i]));
    if es.len() == 0 {
        assert(concat_all(rem) =~= all_names(views).skip(0));
    } else {
        let init = es.drop_last();
        let last = es.last();
        assert(last == es[es.len() - 1]);
        assert(last.wf());
        assert forall|i: int| 0 <= i < init.len() implies (#[trigger] init[i]).wf() by {
            assert(init[i] == es[i]);
        }
        assert(in_turn(init)) by {
            assert forall|i: int, j: int|
                0 <= i < j < init.len() && (#[trigger] init[i]).len > 0 implies (
            #[trigger] init[j]).latest is None by {
                assert(init[i] == es[i]);
                assert(init[j] == es[j]);
            }
        }
        lemma_remaining_is_rest(init);
        let rem_init = elem_remaining(init);
        let nm_init = Seq::new(init.len(), |i: int| names(elem_views(init)[i]));
        assert(rem.drop_last() =~= rem_init);
        assert(nm.drop_last() =~= nm_init);
        assert(elem_views(init) =~= views.drop_last());
        let a = concat_all(nm_init);
        let b = names(last@);
        assert(all_names(views) == a + b);
        assert(rem.last() == last.remaining());
        if last.latest is Some {
            assert forall|i: int| 0 <= i < rem_init.len() implies (#[trigger] rem_init[i]).len()
                == 0 by {
                assert(init[i] == es[i]);
                assert(es[i].wf());
                if es[i].len > 0 {
                    assert(es[es.len() - 1].latest is None);
                }
            }
            lemma_concat_all_empty(rem_init);
            assert(concat_all(rem) =~= last.remaining());
            assert(last.remaining() =~= (a + b).skip(a.len() + last.given()));
        } else {
            assert(last.remaining() =~= b);
            let d = a.len() - concat_all(rem_init).len();
            assert(concat_all(rem) =~= a.skip(d) + b);
            assert(a.skip(d) + b =~= (a + b).skip(d));
        }
    }
}

/// How an expression is written: its entries with commas between them.
pub open spec fn expression_text(entries: Seq<Seq<Part>>) -> Seq<char>
    decreases entries.len(),
{
    if entries.len() == 0 {
        Seq::empty()
    } else if entries.len() == 1 {
        parts_text(entries[0])
    } else {
        expression_text(entries.drop_last()) + seq![','] + parts_text(entries.last())
    }
}

/// What reading the text `expr` gives. Text that does not follow the grammar is
/// refused as such; else the first entry at fault decides the error; else the
/// expression is refused where a counter cannot hold the number of its names;
/// else the result is the expression in canonical form, with all its names
/// still to come.
pub open spec fn reads_as(expr: Seq<char>, res: Result<Hostlist, Error>) -> bool {
    match parse_expression(expr) {
        None => res matches Err(Error::ParseError(t)) && t@ == expr,
        Some(entries) => match first_entry_error(entries) {
            Some(e) => res == Err::<Hostlist, Error>(e),
            None => if total_names(merge_entries(canon_entries(entries))) > usize::MAX {
                res == Err::<Hostlist, Error>(Error::HostlistTooLarge)
            } else {
                res matches Ok(h) && h.wf() && h.is_fresh() && h@ == canonical_entries(entries)
                    && h.remaining() == all_names(h@) && is_canonical_expression(h@)
            },
        },
    }
}

/// The host names of an expression, with the place that the walk through them
/// has reached.
#[derive(Debug, Clone, Ord, PartialOrd, Eq, PartialEq)]
pub struct Hostlist {
    pub hostlist_elems: Vec<HostlistElem>,
}

impl View for Hostlist {
    type V = Seq<Seq<Part>>;

    /// The entries of the expression, each as its pieces.
    open spec fn view(&self) -> Seq<Seq<Part>> {
        elem_views(self.hostlist_elems@)
    }
}

impl Hostlist {
    /// Every entry is well formed, the entries are in order, a counter holds the
    /// number of the names that are still to come, and the walk has not touched
    /// the entries after one that has names left.
    pub open spec fn wf(&self) -> bool {
        &&& forall|i: int|
            0 <= i < self.hostlist_elems.len() ==> (#[trigger] self.hostlist_elems[i]).wf()
        &&& sorted(self@)
        &&& self.remaining().len() <= usize::MAX
        &&& in_turn(self.hostlist_elems@)
    }

    /// No name has been taken yet.
    pub open spec fn is_fresh(&self) -> bool {
        forall|i: int|
            0 <= i < self.hostlist_elems.len() ==> (#[trigger] self.hostlist_elems[i]).latest is None
    }

    /// The names that the walk has still to give, in its order: those of the
    /// first entry, then those of the second, and so on.
    pub open spec fn remaining(&self) -> Seq<Seq<char>> {
        concat_all(elem_remaining(self.hostlist_elems@))
    }

    /// Reads an expression. Entries of one shape that have one set of numbers are
    /// merged into one entry, and the entries are put in order.
    pub fn new(expr: &str) -> (res: Result<Hostlist, Error>)
        ensures
            reads_as(expr@, res),
    {
        let entries = match HostlistParser::parse_hostlist(expr) {
            Ok(entries) => entries,
            Err(e) => {
                return Err(e);
            },
        };
        let ghost parts = entry_parts(entries@);
        let mut elems: Vec<HostlistElem> = Vec::new();
        let mut i: usize = 0;
        proof {
            assert(parts.take(0) =~= Seq::<Seq<Part>>::empty());
            assert(canon_entries(parts.take(0)) =~= Seq::<Seq<Part>>::empty());
            assert(elem_views(elems@) =~= Seq::<Seq<Part>>::empty());
        }
        while i < entries.len()
            invariant
                i <= entries.len(),
                parts == entry_parts(entries@),
                parse_expression(expr@) == Some(parts),
                forall|k: int| 0 <= k < parts.len() ==> is_read_entry(#[trigger] parts[k]),
                each_ready(elems@),
                canonical_each(elem_views(elems@)),
                distinct_shapes(elem_views(elems@)),
                first_entry_error(parts.take(i as int)) is None,
                elem_views(elems@) == merge_entries(canon_entries(parts.take(i as int))),
            decreases entries.len() - i,
        {
            proof {
                let next = parts.take(i + 1);
                assert(next.drop_last() =~= parts.take(i as int));
                assert(next.last() == token_parts(entries[i as int]@));
                let cn = canon_entries(next);
                assert(cn.drop_last() =~= canon_entries(parts.take(i as int)));
                assert(cn.last() == canon_parts(parts[i as int]));
                assert(is_read_entry(parts[i as int]));
            }
            match HostlistElem::new(&entries[i]) {
                Ok(elem) => {
                    match absorb_elem(&mut elems, elem) {
                        Ok(_) => {},
                        Err(e) => {
                            return Err(e);
                        },
                    }
                },
                Err(e) => {
                    proof {
                        lemma_entry_error_stays(parts, i + 1);
                    }
                    return Err(e);
                },
            }
            i = i + 1;
        }
        proof {
            assert(parts.take(i as int) =~= parts);
        }
        let ghost merged = elem_views(elems@);
        // a counter must hold the number of all names
        let mut len: usize = 0;
        let mut j: usize = 0;
        proof {
            assert(merged.take(0) =~= Seq::<Seq<Part>>::empty());
        }
        while j < elems.len()
            invariant
                j <= elems.len(),
                each_ready(elems@),
                canonical_each(elem_views(elems@)),
                distinct_shapes(elem_views(elems@)),
                merged == elem_views(elems@),
                parse_expression(expr@) == Some(parts),
                first_entry_error(parts) is None,
                merged == merge_entries(canon_entries(parts)),
                len == total_names(merged.take(j as int)),
            decreases elems.len() - j,
        {
            proof {
                let next = merged.take(j + 1);
                assert(next.drop_last() =~= merged.take(j as int));
                assert(next.last() == elems[j as int]@);
                assert(elems[j as int].wf() && elems[j as int].latest is None);
                lemma_total_names_take(merged, j + 1);
            }
            match len.checked_add(elems[j].len()) {
                Some(l) => {
                    len = l;
                },
                None => {
                    return Err(Error::HostlistTooLarge);
                },
            }
            j = j + 1;
        }
        proof {
            assert(merged.take(j as int) =~= merged);
            lemma_ready_remaining(elems@);
        }
        sort_elems(&mut elems);
        let h = Hostlist { hostlist_elems: elems };
        proof {
            lemma_entry_le_total();
            merged.lemma_sort_by_ensures(entry_le());
            lemma_sorted_unique(h@, merged.sort_by(entry_le()), entry_le());
            lemma_ready_remaining(h.hostlist_elems@);
        }
        Ok(h)
    }

    /// Whether no name is still to come.
    #[must_use]
    pub fn is_empty(&self) -> (b: bool)
        requires
            self.wf(),
        ensures
            b == (self.remaining().len() == 0),
    {
        let mut i: usize = 0;
        while i < self.hostlist_elems.len()
            invariant
                i <= self.hostlist_elems.len(),
                self.wf(),
                forall|k: int|
                    0 <= k < i ==> (#[trigger] elem_remaining(self.hostlist_elems@)[k]).len() == 0,
            decreases self.hostlist_elems.len() - i,
        {
            proof {
                assert(self.hostlist_elems[i as int].wf());
            }
            if self.hostlist_elems[i].len() != 0 {
                proof {
                    if self.remaining().len() == 0 {
                        lemma_concat_all_none(elem_remaining(self.hostlist_elems@));
                        assert(elem_remaining(self.hostlist_elems@)[i as int].len() == 0);
                    }
                }
                return false;
            }
            i = i + 1;
        }
        proof {
            lemma_concat_all_empty(elem_remaining(self.hostlist_elems@));
        }
        true
    }

    /// How many names are still to come.
    pub fn len(&self) -> (n: usize)
        requires
            self.wf(),
        ensures
            n == self.remaining().len(),
    {
        let ghost rem = elem_remaining(self.hostlist_elems@);
        let mut sum: usize = 0;
        let mut i: usize = 0;
        proof {
            assert(rem.take(0) =~= Seq::<Seq<Seq<char>>>::empty());
        }
        while i < self.hostlist_elems.len()
            invariant
                i <= self.hostlist_elems.len(),
                self.wf(),
                rem == elem_remaining(self.hostlist_elems@),
                sum == concat_all(rem.take(i as int)).len(),
            decreases self.hostlist_elems.len() - i,
        {
            proof {
                let next = rem.take(i + 1);
                assert(next.drop_last() =~= rem.take(i as int));
                assert(next.last() == self.hostlist_elems[i as int].remaining());
                assert(self.hostlist_elems[i as int].wf());
                lemma_concat_all_take(rem, i + 1);
            }
            sum = sum + self.hostlist_elems[i].len();
            i = i + 1;
        }
        proof {
            assert(rem.take(i as int) =~= rem);
        }
        sum
    }

    /// A walk of its own over the names that are still to come, which leaves
    /// this one where it is.
    #[must_use]
    pub fn iter(&self) -> (r: Hostlist)
        ensures
            r@ == self@,
            r.remaining() == self.remaining(),
            self.wf() ==> r.wf(),
    {
        let mut elems: Vec<HostlistElem> = Vec::new();
        let mut i: usize = 0;
        while i < self.hostlist_elems.len()
            invariant
                i <= self.hostlist_elems.len(),
                elems.len() == i,
                forall|k: int| 0 <= k < i ==> same_elem(#[trigger] elems[k], self.hostlist_elems[k]),
            decreases self.hostlist_elems.len() - i,
        {
            elems.push(self.hostlist_elems[i].duplicate());
            i = i + 1;
        }
        let r = Hostlist { hostlist_elems: elems };
        proof {
            assert forall|k: int| 0 <= k < r.hostlist_elems.len() implies r@[k] == self@[k]
                && elem_remaining(r.hostlist_elems@)[k] == elem_remaining(self.hostlist_elems@)[k]
                && (#[trigger] r.hostlist_elems[k]).wf() == self.hostlist_elems[k].wf() by {
                lemma_same_elem(r.hostlist_elems[k], self.hostlist_elems[k]);
            }
            assert(r@ =~= self@);
            assert(elem_remaining(r.hostlist_elems@) =~= elem_remaining(self.hostlist_elems@));
        }
        r
    }

    /// The same as `iter`.
    #[must_use]
    pub fn into_iter(&self) -> (r: Hostlist)
        ensures
            r@ == self@,
            r.remaining() == self.remaining(),
            self.wf() ==> r.wf(),
    {
        self.iter()
    }

    /// Gives the next name: that of the first entry that has a name left.
    /// `None`, with every entry left as it is, once all names are given.
    pub fn next(&mut self) -> (res: Option<String>)
        requires
            old(self).wf(),
        ensures
            final(self).wf(),
            final(self)@ == old(self)@,
            old(self).remaining().len() == 0 ==> res is None && final(self).remaining().len() == 0
                && untouched(final(self).hostlist_elems@, old(self).hostlist_elems@),
            old(self).remaining().len() > 0 ==> (res matches Some(s) && s@ == old(
                self,
            ).remaining()[0]) && final(self).remaining() == old(self).remaining().drop_first(),
    {
        let mut i: usize = 0;
        while i < self.hostlist_elems.len()
            invariant
                i <= self.hostlist_elems.len(),
                self.wf(),
                self@ == old(self)@,
                untouched(self.hostlist_elems@, old(self).hostlist_elems@),
                elem_remaining(self.hostlist_elems@) == elem_remaining(old(self).hostlist_elems@),
                forall|k: int|
                    0 <= k < i ==> (#[trigger] elem_remaining(self.hostlist_elems@)[k]).len() == 0,
                forall|k: int| 0 <= k < i ==> (#[trigger] self.hostlist_elems[k]).len == 0,
            decreases self.hostlist_elems.len() - i,
        {
            let ghost before = self.hostlist_elems@;
            let ghost rem = elem_remaining(before);
            proof {
                assert(before[i as int].wf());
            }
            let next = self.hostlist_elems[i].next();
            proof {
                assert forall|k: int| 0 <= k < before.len() && k != i implies #[trigger] self.hostlist_elems[k]
                    == before[k] by {}
                assert(self@ =~= old(self)@);
                assert forall|k: int| 0 <= k < self.hostlist_elems.len() implies (
                #[trigger] self.hostlist_elems[k]).wf() by {
                    if k != i {
                        assert(before[k].wf());
                    }
                }
            }
            if next.is_some() {
                proof {
                    assert(before[i as int].len > 0);
                    assert forall|a: int, b: int|
                        0 <= a < b < self.hostlist_elems.len() && (
                        #[trigger] self.hostlist_elems[a]).len > 0 implies (
                    #[trigger] self.hostlist_elems[b]).latest is None by {
                        if a < i {
                            assert(self.hostlist_elems[a] == before[a]);
                        } else {
                            assert(self.hostlist_elems[b] == before[b]);
                            assert(before[b].latest is None);
                        }
                    }
                    assert(rem[i as int].len() > 0);
                    lemma_concat_all_step(rem, i as int);
                    assert(elem_remaining(self.hostlist_elems@) =~= rem.update(
                        i as int,
                        rem[i as int].drop_first(),
                    ));
                }
                return next;
            }
            proof {
                assert(elem_remaining(self.hostlist_elems@) =~= rem);
            }
            i = i + 1;
        }
        proof {
            lemma_concat_all_empty(elem_remaining(self.hostlist_elems@));
        }
        None
    }

    /// Appends the expression, as it is written in canonical form, to `out`.
    pub fn push_text(&self, out: &mut String)
        ensures
            final(out)@ == old(out)@ + expression_text(self@),
    {
        let mut i: usize = 0;
        proof {
            assert(self@.take(0) =~= Seq::<Seq<Part>>::empty());
            assert(out@ =~= old(out)@ + expression_text(self@.take(0)));
        }
        while i < self.hostlist_elems.len()
            invariant
                i <= self.hostlist_elems.len(),
                out@ == old(out)@ + expression_text(self@.take(i as int)),
            decreases self.hostlist_elems.len() - i,
        {
            let ghost before = out@;
            if i > 0 {
                proof {
                    reveal_strlit(",");
                }
                out.append(",");
            }
            self.hostlist_elems[i].push_text(out);
            proof {
                let next = self@.take(i + 1);
                let t = parts_text(self.hostlist_elems[i as int]@);
                assert(next.drop_last() =~= self@.take(i as int));
                assert(next.last() == self.hostlist_elems[i as int]@);
                if i == 0 {
                    assert(next[0] == self@[0]);
                    assert(expression_text(self@.take(0)) =~= Seq::<char>::empty());
                    assert(out@ =~= old(out)@ + expression_text(next));
                } else {
                    assert(expression_text(next) == expression_text(self@.take(i as int)) + seq![
                        ',',
                    ] + t);
                    assert(out@ =~= before + seq![','] + t);
                    assert(out@ =~= old(out)@ + expression_text(next));
                }
            }
            i = i + 1;
        }
        proof {
            assert(self@.take(i as int) =~= self@);
        }
    }

    /// The expression as it is written in canonical form.
    pub fn to_string(&self) -> (s: String)
        ensures
            s@ == expression_text(self@),
    {
        let mut s = String::new();
        self.push_text(&mut s);
        assert(s@ =~= expression_text(self@));
        s
    }
}

impl std::str::FromStr for Hostlist {
    type Err = Error;

    /// Reads an expression, as `Hostlist::new` does.
    fn from_str(s: &str) -> (res: Result<Hostlist, Error>)
        ensures
            reads_as(s@, res),
    {
        Hostlist::new(s)
    }
}

/// The names that an expression stands for, in the order of its canonical form.
pub fn expand_hostlist(expr: &str) -> (res: Result<Vec<String>, Error>)
    ensures
        match parse_expression(expr@) {
            None => res matches Err(Error::ParseError(t)) && t@ == expr@,
            Some(entries) => match first_entry_error(entries) {
                Some(e) => res == Err::<Vec<String>, Error>(e),
                None => if total_names(merge_entries(canon_entries(entries))) > usize::MAX {
                    res == Err::<Vec<String>, Error>(Error::HostlistTooLarge)
                } else {
                    res matches Ok(hosts) && string_views(hosts@) == all_names(
                        canonical_entries(entries),
                    )
                },
            },
        },
{
    let mut hostlist = match Hostlist::new(expr) {
        Ok(h) => h,
        Err(e) => {
            return Err(e);
        },
    };
    let ghost all = hostlist.remaining();
    let mut hosts: Vec<String> = Vec::new();
    proof {
        assert(string_views(hosts@) + hostlist.remaining() =~= all);
    }
    loop
        invariant
            hostlist.wf(),
            string_views(hosts@) + hostlist.remaining() == all,
            parse_expression(expr@) matches Some(entries) && first_entry_error(entries) is None
                && total_names(merge_entries(canon_entries(entries))) <= usize::MAX && all
                == all_names(canonical_entries(entries)),
        decreases hostlist.remaining().len(),
    {
        let ghost rem = hostlist.remaining();
        let ghost got = string_views(hosts@);
        match hostlist.next() {
            Some(host) => {
                hosts.push(host);
                proof {
                    assert(string_views(hosts@) =~= got.push(rem[0]));
                    assert(got.push(rem[0]) + rem.drop_first() =~= got + rem);
                }
            },
            None => {
                proof {
                    assert(string_views(hosts@) + hostlist.remaining() =~= string_views(hosts@));
                }
                return Ok(hosts);
            },
        }
    }
}

} // verus!
