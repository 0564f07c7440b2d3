//! A set of numbers, held as ranges that neither overlap nor touch.

use vstd::prelude::*;
use vstd::set_lib::*;
use vstd::string::*;
use crate::error::Error;
use crate::simplerange::{interval_seq, interval_text, SimpleRange};

verus! {

/// The numbers `lo..=hi` as a set.
pub open spec fn interval_set(lo: int, hi: int) -> Set<int> {
    Set::new(|v: int| lo <= v <= hi)
}

/// Whether one of the intervals holds `v`.
pub open spec fn covers(ivs: Seq<(u32, u32)>, v: int) -> bool {
    exists|i: int| 0 <= i < ivs.len() && (#[trigger] ivs[i]).0 <= v <= ivs[i].1
}

/// The numbers that the intervals hold between them.
pub open spec fn cover_set(ivs: Seq<(u32, u32)>) -> Set<int> {
    Set::new(|v: int| covers(ivs, v))
}

/// Each interval has its bounds in order and ends below the largest 32-bit value.
pub open spec fn valid(ivs: Seq<(u32, u32)>) -> bool {
    forall|i: int| 0 <= i < ivs.len() ==> (#[trigger] ivs[i]).0 <= ivs[i].1 < u32::MAX
}

/// No two intervals share a number.
pub open spec fn disjoint(ivs: Seq<(u32, u32)>) -> bool {
    forall|i: int, j: int|
        0 <= i < j < ivs.len() ==> (#[trigger] ivs[i]).1 < (#[trigger] ivs[j]).0 || ivs[j].1
            < ivs[i].0
}

/// Each interval lies wholly below the ones after it.
pub open spec fn ascending(ivs: Seq<(u32, u32)>) -> bool {
    forall|i: int, j: int| 0 <= i < j < ivs.len() ==> (#[trigger] ivs[i]).1 < (#[trigger] ivs[j]).0
}

/// Valid, ascending, and with at least one number left out between any two
/// intervals: the one way to write a set of numbers as intervals.
pub open spec fn canonical(ivs: Seq<(u32, u32)>) -> bool {
    &&& valid(ivs)
    &&& forall|i: int, j: int|
        0 <= i < j < ivs.len() ==> (#[trigger] ivs[i]).1 + 1 < (#[trigger] ivs[j]).0
}

/// The numbers of all intervals, interval after interval.
pub open spec fn values(ivs: Seq<(u32, u32)>) -> Seq<u32>
    decreases ivs.len(),
{
    if ivs.len() == 0 {
        Seq::empty()
    } else {
        values(ivs.drop_last()) + interval_seq(ivs.last().0 as int, ivs.last().1 as int)
    }
}

/// The writings of the intervals with a comma between each two.
pub open spec fn joined_text(ivs: Seq<(u32, u32)>) -> Seq<char>
    decreases ivs.len(),
{
    if ivs.len() == 0 {
        Seq::empty()
    } else if ivs.len() == 1 {
        interval_text(ivs[0].0, ivs[0].1)
    } else {
        joined_text(ivs.drop_last()) + seq![','] + interval_text(ivs.last().0, ivs.last().1)
    }
}

/// How a set is written: its intervals, joined by commas, in square brackets.
pub open spec fn range_text(ivs: Seq<(u32, u32)>) -> Seq<char> {
    seq!['['] + joined_text(ivs) + seq![']']
}

/// The bounds of each range, in order.
pub open spec fn bounds(rs: Seq<SimpleRange>) -> Seq<(u32, u32)> {
    Seq::new(rs.len(), |i: int| (rs[i].start, rs[i].end))
}

/// Every range is well formed.
pub open spec fn each_wf(rs: Seq<SimpleRange>) -> bool {
    forall|i: int| 0 <= i < rs.len() ==> (#[trigger] rs[i]).wf()
}

/// Every range has its cursor at its start.
pub open spec fn each_fresh(rs: Seq<SimpleRange>) -> bool {
    forall|i: int| 0 <= i < rs.len() ==> (#[trigger] rs[i]).is_fresh()
}

/// The numbers that the cursors of the ranges have still to give, range after range.
pub open spec fn all_remaining(rs: Seq<SimpleRange>) -> Seq<u32>
    decreases rs.len(),
{
    if rs.len() == 0 {
        Seq::empty()
    } else {
        all_remaining(rs.drop_last()) + rs.last().remaining()
    }
}

/// Intervals with one more hold what they held and what the new one holds.
pub proof fn lemma_covers_push(ivs: Seq<(u32, u32)>, x: (u32, u32))
    ensures
        cover_set(ivs.push(x)) == cover_set(ivs).union(interval_set(x.0 as int, x.1 as int)),
{
    let a = cover_set(ivs.push(x));
    let b = cover_set(ivs).union(interval_set(x.0 as int, x.1 as int));
    assert forall|v: int| a.contains(v) <==> b.contains(v) by {
        if a.contains(v) {
            let i = choose|i: int|
                0 <= i < ivs.push(x).len() && (#[trigger] ivs.push(x)[i]).0 <= v <= ivs.push(
                    x,
                )[i].1;
            if i < ivs.len() {
                assert(ivs[i].0 <= v <= ivs[i].1);
            }
        }
        if cover_set(ivs).contains(v) {
            let i = choose|i: int| 0 <= i < ivs.len() && (#[trigger] ivs[i]).0 <= v <= ivs[i].1;
            assert(ivs.push(x)[i] == ivs[i]);
        }
        if x.0 <= v <= x.1 {
            assert(ivs.push(x)[ivs.len() as int] == x);
        }
    }
    assert(a =~= b);
}

/// Two lists of intervals, one after the other, hold what either holds.
pub proof fn lemma_covers_concat(a: Seq<(u32, u32)>, b: Seq<(u32, u32)>)
    ensures
        cover_set(a + b) == cover_set(a).union(cover_set(b)),
    decreases b.len(),
{
    if b.len() == 0 {
        assert(a + b =~= a);
        assert(cover_set(b) =~= Set::<int>::empty());
        assert(cover_set(a).union(cover_set(b)) =~= cover_set(a));
    } else {
        let init = b.drop_last();
        lemma_covers_concat(a, init);
        assert(a + b =~= (a + init).push(b.last()));
        assert(b =~= init.push(b.last()));
        lemma_covers_push(a + init, b.last());
        lemma_covers_push(init, b.last());
        assert(cover_set(a + b) =~= cover_set(a).union(cover_set(b)));
    }
}

/// Intervals hold what one of them holds and what the others hold.
pub proof fn lemma_covers_remove(ivs: Seq<(u32, u32)>, k: int)
    requires
        0 <= k < ivs.len(),
    ensures
        cover_set(ivs) == cover_set(ivs.remove(k)).union(
            interval_set(ivs[k].0 as int, ivs[k].1 as int),
        ),
{
    let a = cover_set(ivs);
    let r = ivs.remove(k);
    let b = cover_set(r).union(interval_set(ivs[k].0 as int, ivs[k].1 as int));
    assert forall|v: int| a.contains(v) <==> b.contains(v) by {
        if a.contains(v) {
            let i = choose|i: int| 0 <= i < ivs.len() && (#[trigger] ivs[i]).0 <= v <= ivs[i].1;
            if i < k {
                assert(r[i] == ivs[i]);
            } else if i > k {
                assert(r[i - 1] == ivs[i]);
            }
        }
        if cover_set(r).contains(v) {
            let i = choose|i: int| 0 <= i < r.len() && (#[trigger] r[i]).0 <= v <= r[i].1;
            if i < k {
                assert(r[i] == ivs[i]);
            } else {
                assert(r[i] == ivs[i + 1]);
            }
        }
    }
    assert(a =~= b);
}

/// Intervals with one more put in among them hold what they held and what the
/// new one holds.
pub proof fn lemma_covers_insert(ivs: Seq<(u32, u32)>, k: int, x: (u32, u32))
    requires
        0 <= k <= ivs.len(),
    ensures
        cover_set(ivs.insert(k, x)) == cover_set(ivs).union(interval_set(x.0 as int, x.1 as int)),
{
    let w = ivs.insert(k, x);
    assert(w.remove(k) =~= ivs);
    assert(w[k] == x);
    lemma_covers_remove(w, k);
}

/// The intervals of a canonical list hold, between them, as many numbers as the
/// list's last end allows, and their values are as many as their set has.
pub proof fn lemma_values_len(ivs: Seq<(u32, u32)>)
    requires
        valid(ivs),
        ascending(ivs),
    ensures
        cover_set(ivs).finite(),
        cover_set(ivs).len() == values(ivs).len(),
        ivs.len() > 0 ==> values(ivs).len() <= ivs.last().1 + 1,
        ivs.len() > 0 ==> forall|v: int| cover_set(ivs).contains(v) ==> v <= ivs.last().1,
    decreases ivs.len(),
{
    if ivs.len() == 0 {
        assert(cover_set(ivs) =~= Set::<int>::empty());
    } else {
        let init = ivs.drop_last();
        let last = ivs.last();
        assert(valid(init)) by {
            assert forall|i: int| 0 <= i < init.len() implies (#[trigger] init[i]).0 <= init[i].1
                < u32::MAX by {
                assert(init[i] == ivs[i]);
            }
        }
        assert(ascending(init)) by {
            assert forall|i: int, j: int| 0 <= i < j < init.len() implies (#[trigger] init[i]).1 < (
            #[trigger] init[j]).0 by {
                assert(init[i] == ivs[i]);
                assert(init[j] == ivs[j]);
            }
        }
        lemma_values_len(init);
        assert(init.push(last) =~= ivs);
        lemma_covers_push(init, last);
        let s = interval_set(last.0 as int, last.1 as int);
        assert(s =~= set_int_range(last.0 as int, last.1 + 1));
        lemma_int_range(last.0 as int, last.1 + 1);
        if init.len() > 0 {
            assert(init.last() == ivs[init.len() - 1]);
            assert(ivs[init.len() - 1].1 < ivs[ivs.len() - 1].0);
        }
        assert(cover_set(init).disjoint(s)) by {
            assert forall|v: int| !(cover_set(init).contains(v) && s.contains(v)) by {
                if cover_set(init).contains(v) && s.contains(v) {
                    assert(v <= init.last().1);
                }
            }
        }
        lemma_set_disjoint_lens(cover_set(init), s);
        assert(cover_set(ivs).finite());
        assert forall|v: int| cover_set(ivs).contains(v) implies v <= ivs.last().1 by {
            if cover_set(init).contains(v) {
                assert(v <= init.last().1);
            }
        }
    }
}

/// The numbers of ascending intervals come in ascending order, each once, and
/// they are the numbers that the intervals hold.
pub proof fn lemma_values_ascending(ivs: Seq<(u32, u32)>)
    requires
        valid(ivs),
        ascending(ivs),
    ensures
        forall|a: int, b: int|
            0 <= a < b < values(ivs).len() ==> (#[trigger] values(ivs)[a]) < (
            #[trigger] values(ivs)[b]),
        forall|k: int| 0 <= k < values(ivs).len() ==> covers(ivs, #[trigger] values(ivs)[k] as int),
        forall|v: int|
            covers(ivs, v) ==> exists|k: int|
                0 <= k < values(ivs).len() && #[trigger] values(ivs)[k] == v,
    decreases ivs.len(),
{
    if ivs.len() > 0 {
        let init = ivs.drop_last();
        let last = ivs.last();
        assert(last == ivs[ivs.len() - 1]);
        assert(valid(init)) by {
            assert forall|i: int| 0 <= i < init.len() implies (#[trigger] init[i]).0 <= init[i].1
                < u32::MAX by {
                assert(init[i] == ivs[i]);
            }
        }
        assert(ascending(init)) by {
            assert forall|i: int, j: int| 0 <= i < j < init.len() implies (#[trigger] init[i]).1 < (
            #[trigger] init[j]).0 by {
                assert(init[i] == ivs[i]);
                assert(init[j] == ivs[j]);
            }
        }
        lemma_values_ascending(init);
        lemma_values_len(init);
        let head = values(init);
        let tail = interval_seq(last.0 as int, last.1 as int);
        let vals = values(ivs);
        assert(vals == head + tail);
        // what the first intervals hold lies below the last interval
        assert forall|k: int| 0 <= k < head.len() implies (#[trigger] head[k]) < last.0 by {
            assert(covers(init, head[k] as int));
            let i = choose|i: int| 0 <= i < init.len() && (#[trigger] init[i]).0 <= head[k]
                <= init[i].1;
            assert(init[i] == ivs[i]);
            assert(ivs[i].1 < ivs[ivs.len() - 1].0);
        }
        assert forall|a: int, b: int| 0 <= a < b < vals.len() implies (#[trigger] vals[a]) < (
        #[trigger] vals[b]) by {
            if b < head.len() {
                assert(vals[a] == head[a] && vals[b] == head[b]);
            } else if a < head.len() {
                assert(vals[a] == head[a]);
                assert(vals[b] == tail[b - head.len()]);
            } else {
                assert(vals[a] == tail[a - head.len()]);
                assert(vals[b] == tail[b - head.len()]);
            }
        }
        assert forall|k: int| 0 <= k < vals.len() implies covers(ivs, #[trigger] vals[k] as int) by {
            if k < head.len() {
                assert(vals[k] == head[k]);
                assert(covers(init, head[k] as int));
                let i = choose|i: int| 0 <= i < init.len() && (#[trigger] init[i]).0 <= head[k]
                    <= init[i].1;
                assert(init[i] == ivs[i]);
            } else {
                assert(vals[k] == tail[k - head.len()]);
                assert(ivs[ivs.len() - 1].0 <= vals[k] <= ivs[ivs.len() - 1].1);
            }
        }
        assert forall|v: int| covers(ivs, v) implies exists|k: int|
            0 <= k < vals.len() && #[trigger] vals[k] == v by {
            let i = choose|i: int| 0 <= i < ivs.len() && (#[trigger] ivs[i]).0 <= v <= ivs[i].1;
            if i < init.len() {
                assert(init[i] == ivs[i]);
                assert(covers(init, v));
                let k = choose|k: int| 0 <= k < head.len() && #[trigger] head[k] == v;
                assert(vals[k] == head[k]);
            } else {
                let k = head.len() + (v - last.0);
                assert(vals[k] == tail[v - last.0]);
            }
        }
    }
}

/// A canonical list is the canonical list of each of its beginnings too.
pub proof fn lemma_canonical_prefix(ivs: Seq<(u32, u32)>, n: int)
    requires
        canonical(ivs),
        0 <= n <= ivs.len(),
    ensures
        canonical(ivs.take(n)),
        valid(ivs.take(n)),
        ascending(ivs.take(n)),
        ascending(ivs),
{
    let t = ivs.take(n);
    assert forall|i: int| 0 <= i < t.len() implies (#[trigger] t[i]).0 <= t[i].1 < u32::MAX by {
        assert(t[i] == ivs[i]);
    }
    assert forall|i: int, j: int| 0 <= i < j < t.len() implies (#[trigger] t[i]).1 + 1 < (
    #[trigger] t[j]).0 by {
        assert(t[i] == ivs[i]);
        assert(t[j] == ivs[j]);
    }
}

/// A set of numbers has one canonical list of intervals only.
pub proof fn lemma_canonical_unique(a: Seq<(u32, u32)>, b: Seq<(u32, u32)>)
    requires
        canonical(a),
        canonical(b),
        cover_set(a) == cover_set(b),
    ensures
        a == b,
    decreases a.len() + b.len(),
{
    if a.len() == 0 || b.len() == 0 {
        if a.len() > 0 {
            assert(a[0].0 <= a[0].0 <= a[0].1);
            assert(cover_set(a).contains(a[0].0 as int));
            assert(covers(b, a[0].0 as int));
        }
        if b.len() > 0 {
            assert(b[0].0 <= b[0].0 <= b[0].1);
            assert(cover_set(b).contains(b[0].0 as int));
            assert(covers(a, b[0].0 as int));
        }
        assert(a =~= b);
    } else {
        let la = a.last();
        let lb = b.last();
        let ia = a.drop_last();
        let ib = b.drop_last();
        lemma_canonical_prefix(a, a.len() - 1);
        lemma_canonical_prefix(b, b.len() - 1);
        assert(a.take(a.len() - 1) =~= ia);
        assert(b.take(b.len() - 1) =~= ib);
        lemma_values_len(a);
        lemma_values_len(b);
        lemma_values_len(ia);
        lemma_values_len(ib);
        assert(ia.push(la) =~= a);
        assert(ib.push(lb) =~= b);
        lemma_covers_push(ia, la);
        lemma_covers_push(ib, lb);
        assert(a[a.len() - 1] == la);
        assert(b[b.len() - 1] == lb);
        // the largest number of the set ends both lists
        assert(la.1 == lb.1) by {
            assert(la.0 <= la.1 <= la.1);
            assert(cover_set(a).contains(la.1 as int));
            assert(lb.0 <= lb.1 <= lb.1);
            assert(cover_set(b).contains(lb.1 as int));
        }
        lemma_last_start(a, b);
        lemma_last_start(b, a);
        assert(la == lb);
        let last = interval_set(la.0 as int, la.1 as int);
        assert(cover_set(ia) =~= cover_set(a).difference(last)) by {
            assert forall|v: int| cover_set(ia).contains(v) implies !last.contains(v) by {
                lemma_below_last(a, v);
            }
        }
        assert(cover_set(ib) =~= cover_set(b).difference(last)) by {
            assert forall|v: int| cover_set(ib).contains(v) implies !last.contains(v) by {
                lemma_below_last(b, v);
            }
        }
        lemma_canonical_unique(ia, ib);
    }
}

/// What a canonical list holds before its last interval lies below that interval.
proof fn lemma_below_last(a: Seq<(u32, u32)>, v: int)
    requires
        canonical(a),
        a.len() > 0,
        cover_set(a.drop_last()).contains(v),
    ensures
        v + 1 < a.last().0,
{
    let ia = a.drop_last();
    let i = choose|i: int| 0 <= i < ia.len() && (#[trigger] ia[i]).0 <= v <= ia[i].1;
    assert(ia[i] == a[i]);
    assert(a[i].1 + 1 < a[a.len() - 1].0);
}

/// Of two canonical lists of one set, the last interval of the one starts no
/// later than that of the other.
proof fn lemma_last_start(a: Seq<(u32, u32)>, b: Seq<(u32, u32)>)
    requires
        canonical(a),
        canonical(b),
        cover_set(a) == cover_set(b),
        a.len() > 0,
        b.len() > 0,
        a.last().1 == b.last().1,
    ensures
        a.last().0 <= b.last().0,
{
    let la = a.last();
    let lb = b.last();
    assert(a[a.len() - 1] == la);
    assert(b[b.len() - 1] == lb);
    if la.0 > lb.0 {
        let v = la.0 - 1;
        assert(lb.0 <= v <= lb.1);
        assert(cover_set(b).contains(v));
        assert(cover_set(a).contains(v));
        let i = choose|i: int| 0 <= i < a.len() && (#[trigger] a[i]).0 <= v <= a[i].1;
        if i < a.len() - 1 {
            assert(a[i].1 + 1 < a[a.len() - 1].0);
        }
    }
}

/// The canonical list of the numbers that the intervals hold between them.
pub open spec fn canon(ivs: Seq<(u32, u32)>) -> Seq<(u32, u32)> {
    choose|c: Seq<(u32, u32)>| canonical(c) && cover_set(c) == cover_set(ivs)
}

/// A canonical list with the numbers of `ivs` is the canonical list of `ivs`.
pub proof fn lemma_canon_is(c: Seq<(u32, u32)>, ivs: Seq<(u32, u32)>)
    requires
        canonical(c),
        cover_set(c) == cover_set(ivs),
    ensures
        c == canon(ivs),
{
    lemma_canonical_unique(c, canon(ivs));
}

/// Cursors within their ranges have no more to give than the ranges hold.
pub proof fn lemma_remaining_len(rs: Seq<SimpleRange>)
    requires
        each_wf(rs),
    ensures
        all_remaining(rs).len() <= values(bounds(rs)).len(),
        each_fresh(rs) ==> all_remaining(rs) == values(bounds(rs)),
    decreases rs.len(),
{
    if rs.len() > 0 {
        let init = rs.drop_last();
        assert(each_wf(init)) by {
            assert forall|i: int| 0 <= i < init.len() implies (#[trigger] init[i]).wf() by {
                assert(init[i] == rs[i]);
            }
        }
        lemma_remaining_len(init);
        assert(bounds(rs).drop_last() =~= bounds(init));
        assert(rs.last().wf());
        if each_fresh(rs) {
            assert(each_fresh(init)) by {
                assert forall|i: int| 0 <= i < init.len() implies (#[trigger] init[i]).is_fresh() by {
                    assert(init[i] == rs[i]);
                }
            }
            assert(rs.last().is_fresh());
            assert(rs.last().remaining() =~= rs.last().values());
        }
    }
}

/// Where every range before the `k`-th has given all its numbers, the next
/// number comes from the `k`-th, and taking it there takes it from the whole.
pub proof fn lemma_remaining_step(rs: Seq<SimpleRange>, k: int, r: SimpleRange)
    requires
        0 <= k < rs.len(),
        forall|i: int| 0 <= i < k ==> (#[trigger] rs[i]).remaining().len() == 0,
        rs[k].remaining().len() > 0,
        r.remaining() == rs[k].remaining().drop_first(),
    ensures
        all_remaining(rs).len() > 0,
        all_remaining(rs)[0] == rs[k].remaining()[0],
        all_remaining(rs.update(k, r)) == all_remaining(rs).drop_first(),
    decreases rs.len(),
{
    let init = rs.drop_last();
    let upd = rs.update(k, r);
    if k == rs.len() - 1 {
        lemma_remaining_none(init);
        assert(upd.drop_last() =~= init);
        assert(all_remaining(upd) =~= all_remaining(rs).drop_first());
    } else {
        assert(init[k] == rs[k]);
        assert forall|i: int| 0 <= i < k implies (#[trigger] init[i]).remaining().len() == 0 by {
            assert(init[i] == rs[i]);
        }
        lemma_remaining_step(init, k, r);
        assert(upd.drop_last() =~= init.update(k, r));
        assert(upd.last() == rs.last());
        assert(all_remaining(upd) =~= all_remaining(rs).drop_first());
    }
}

/// Ranges that have each given all their numbers have nothing left between them.
pub proof fn lemma_remaining_none(rs: Seq<SimpleRange>)
    requires
        forall|i: int| 0 <= i < rs.len() ==> (#[trigger] rs[i]).remaining().len() == 0,
    ensures
        all_remaining(rs).len() == 0,
    decreases rs.len(),
{
    if rs.len() > 0 {
        let init = rs.drop_last();
        assert forall|i: int| 0 <= i < init.len() implies (#[trigger] init[i]).remaining().len()
            == 0 by {
            assert(init[i] == rs[i]);
        }
        lemma_remaining_none(init);
        assert(rs.last() == rs[rs.len() - 1]);
    }
}

/// A set of numbers below the largest 32-bit value, with a cursor that walks
/// through it in ascending order.
#[derive(Debug, Clone, Eq, PartialEq, Ord, PartialOrd)]
pub struct Range {
    pub ranges: Vec<SimpleRange>,
    pub latest: Option<u32>,
}

impl View for Range {
    type V = Seq<(u32, u32)>;

    /// The intervals of the set, in order.
    open spec fn view(&self) -> Seq<(u32, u32)> {
        bounds(self.ranges@)
    }
}

impl Range {
    /// The intervals are canonical and each cursor lies within its range.
    pub open spec fn wf(&self) -> bool {
        &&& each_wf(self.ranges@)
        &&& canonical(self@)
    }

    /// The numbers of the set.
    pub open spec fn set(&self) -> Set<int> {
        cover_set(self@)
    }

    /// The numbers of the set in ascending order.
    pub open spec fn values(&self) -> Seq<u32> {
        values(self@)
    }

    /// The numbers that the walk has still to give, in the order it gives them.
    pub open spec fn remaining(&self) -> Seq<u32> {
        all_remaining(self.ranges@)
    }

    /// Every cursor stands at the start of its range.
    pub open spec fn cursors_fresh(&self) -> bool {
        each_fresh(self.ranges@)
    }

    /// No number has been taken from the set yet.
    pub open spec fn is_fresh(&self) -> bool {
        self.latest is None && self.remaining() == self.values()
    }

    /// The empty set.
    pub fn new() -> (r: Range)
        ensures
            r@ == Seq::<(u32, u32)>::empty(),
            r.latest is None,
            r.wf(),
            r.cursors_fresh(),
    {
        let r = Range { ranges: Vec::new(), latest: None };
        assert(r@ =~= Seq::<(u32, u32)>::empty());
        r
    }

    /// The number that `next` gave last.
    pub fn latest(&self) -> (v: Option<u32>)
        ensures
            v == self.latest,
    {
        self.latest
    }

    /// How many numbers the walk has still to give. For a set whose walk has not
    /// begun, that is the number of its members.
    pub fn len(&self) -> (n: usize)
        requires
            self.wf(),
        ensures
            n == self.remaining().len(),
            self.cursors_fresh() ==> n == self.set().len(),
    {
        let mut sum: usize = 0;
        let mut i: usize = 0;
        proof {
            assert(self.ranges@.take(0) =~= Seq::<SimpleRange>::empty());
        }
        while i < self.ranges.len()
            invariant
                self.wf(),
                i <= self.ranges.len(),
                sum == all_remaining(self.ranges@.take(i as int)).len(),
                sum <= values(bounds(self.ranges@.take(i as int))).len(),
                i > 0 ==> values(bounds(self.ranges@.take(i as int))).len() <= self.ranges[i - 1].end
                    + 1,
            decreases self.ranges.len() - i,
        {
            proof {
                let next = self.ranges@.take(i + 1);
                assert(next.drop_last() =~= self.ranges@.take(i as int));
                assert(next.last() == self.ranges[i as int]);
                lemma_take_wf(self.ranges@, i + 1);
                lemma_remaining_len(next);
                lemma_values_len(bounds(next));
                assert(bounds(next).last() == (self.ranges[i as int].start, self.ranges[i as int].end));
            }
            sum = sum + self.ranges[i].len();
            i = i + 1;
        }
        proof {
            assert(self.ranges@.take(i as int) =~= self.ranges@);
            lemma_remaining_len(self.ranges@);
            lemma_values_len(self@);
        }
        sum
    }

    /// Puts the walk back before the first number of the set.
    pub fn reset(&mut self)
        ensures
            final(self)@ == old(self)@,
            final(self).latest == old(self).latest,
            final(self).cursors_fresh(),
            old(self).wf() ==> final(self).wf() && final(self).remaining() == final(self).values(),
    {
        let mut i: usize = 0;
        while i < self.ranges.len()
            invariant
                i <= self.ranges.len(),
                self.ranges.len() == old(self).ranges.len(),
                self.latest == old(self).latest,
                forall|k: int|
                    0 <= k < self.ranges.len() ==> (#[trigger] self.ranges[k]).start == old(
                        self,
                    ).ranges[k].start && self.ranges[k].end == old(self).ranges[k].end,
                forall|k: int| 0 <= k < i ==> (#[trigger] self.ranges[k]).is_fresh(),
            decreases self.ranges.len() - i,
        {
            self.ranges[i].reset();
            i = i + 1;
        }
        proof {
            assert(self@ =~= old(self)@);
            if old(self).wf() {
                assert forall|k: int| 0 <= k < self.ranges.len() implies (
                #[trigger] self.ranges[k]).wf() by {
                    assert(self@[k] == old(self)@[k]);
                    assert(self.ranges[k].is_fresh());
                }
                lemma_remaining_len(self.ranges@);
            }
        }
    }

    /// A copy of the set with its cursors and its latest number.
    pub fn duplicate(&self) -> (r: Range)
        ensures
            r.ranges@ == self.ranges@,
            r.latest == self.latest,
    {
        let mut r = self.iter();
        r.latest = self.latest;
        r
    }

    /// A set with the same ranges and cursors, which remembers no latest number.
    pub fn iter(&self) -> (r: Range)
        ensures
            r.ranges@ == self.ranges@,
            r.latest is None,
    {
        let mut ranges: Vec<SimpleRange> = Vec::new();
        let mut i: usize = 0;
        while i < self.ranges.len()
            invariant
                i <= self.ranges.len(),
                ranges@ == self.ranges@.take(i as int),
            decreases self.ranges.len() - i,
        {
            ranges.push(self.ranges[i].duplicate());
            proof {
                assert(self.ranges@.take(i + 1) =~= self.ranges@.take(i as int).push(
                    self.ranges[i as int],
                ));
            }
            i = i + 1;
        }
        proof {
            assert(self.ranges@.take(i as int) =~= self.ranges@);
        }
        Range { ranges, latest: None }
    }

    /// Appends the writing of the set to `out`.
    pub fn push_text(&self, out: &mut String)
        ensures
            final(out)@ == old(out)@ + range_text(self@),
    {
        proof {
            reveal_strlit("[");
            reveal_strlit("]");
            reveal_strlit(",");
        }
        out.append("[");
        let mut i: usize = 0;
        proof {
            assert(self@.take(0) =~= Seq::<(u32, u32)>::empty());
            assert(out@ =~= old(out)@ + seq!['['] + joined_text(self@.take(0)));
        }
        while i < self.ranges.len()
            invariant
                i <= self.ranges.len(),
                out@ == old(out)@ + seq!['['] + joined_text(self@.take(i as int)),
            decreases self.ranges.len() - i,
        {
            let ghost before = out@;
            if i > 0 {
                proof {
                    reveal_strlit(",");
                }
                out.append(",");
            }
            self.ranges[i].push_text(out);
            proof {
                let next = self@.take(i + 1);
                assert(next.drop_last() =~= self@.take(i as int));
                assert(next.last() == self@[i as int]);
                assert(self@[i as int] == (self.ranges[i as int].start, self.ranges[i as int].end));
                if i == 0 {
                    assert(next[0] == self@[0]);
                    assert(joined_text(self@.take(0)) =~= Seq::<char>::empty());
                    assert(out@ =~= old(out)@ + seq!['['] + joined_text(next));
                } else {
                    let t = interval_text(self.ranges[i as int].start, self.ranges[i as int].end);
                    assert(joined_text(next) == joined_text(self@.take(i as int)) + seq![','] + t);
                    assert(out@ =~= before + seq![','] + t);
                    assert(out@ =~= old(out)@ + seq!['['] + joined_text(next));
                }
            }
            i = i + 1;
        }
        out.append("]");
        proof {
            assert(self@.take(i as int) =~= self@);
            assert(out@ =~= old(out)@ + range_text(self@));
        }
    }

    /// The writing of the set.
    pub fn to_string(&self) -> (s: String)
        ensures
            s@ == range_text(self@),
    {
        let mut s = String::new();
        self.push_text(&mut s);
        assert(s@ =~= range_text(self@));
        s
    }

    /// Gives the smallest number that the walk has not given yet, and remembers
    /// it as the latest; `None`, with nothing changed, once all are given.
    pub fn next(&mut self) -> (res: Option<u32>)
        requires
            old(self).wf(),
        ensures
            final(self).wf(),
            final(self)@ == old(self)@,
            old(self).remaining().len() == 0 ==> res is None && final(self).ranges@ == old(
                self,
            ).ranges@ && final(self).latest == old(self).latest,
            old(self).remaining().len() > 0 ==> res == Some(old(self).remaining()[0])
                && final(self).remaining() == old(self).remaining().drop_first()
                && final(self).latest == res,
    {
        let mut i: usize = 0;
        while i < self.ranges.len()
            invariant
                i <= self.ranges.len(),
                self.ranges@ == old(self).ranges@,
                self.latest == old(self).latest,
                self.wf(),
                forall|k: int| 0 <= k < i ==> (#[trigger] self.ranges[k]).remaining().len() == 0,
            decreases self.ranges.len() - i,
        {
            let ghost before = self.ranges@;
            if let Some(v) = self.ranges[i].next() {
                proof {
                    assert(self.ranges@ =~= before.update(i as int, self.ranges[i as int]));
                    lemma_remaining_step(before, i as int, self.ranges[i as int]);
                    assert(self@ =~= old(self)@);
                    assert forall|k: int| 0 <= k < self.ranges.len() implies (
                    #[trigger] self.ranges[k]).wf() by {
                        if k != i {
                            assert(self.ranges[k] == before[k]);
                        }
                    }
                }
                self.latest = Some(v);
                return Some(v);
            }
            proof {
                assert(self.ranges[i as int] == before[i as int]);
                assert(self.ranges@ =~= before);
            }
            i = i + 1;
        }
        proof {
            lemma_remaining_none(self.ranges@);
        }
        None
    }
}

/// How many numbers the intervals hold, counted interval by interval.
pub open spec fn total_size(ivs: Seq<(u32, u32)>) -> int
    decreases ivs.len(),
{
    if ivs.len() == 0 {
        0
    } else {
        total_size(ivs.drop_last()) + (ivs.last().1 - ivs.last().0 + 1)
    }
}

/// Valid intervals hold no negative number of numbers.
proof fn lemma_total_size_nonneg(ivs: Seq<(u32, u32)>)
    requires
        valid(ivs),
    ensures
        total_size(ivs) >= 0,
    decreases ivs.len(),
{
    if ivs.len() > 0 {
        let init = ivs.drop_last();
        assert forall|i: int| 0 <= i < init.len() implies (#[trigger] init[i]).0 <= init[i].1
            < u32::MAX by {
            assert(init[i] == ivs[i]);
        }
        lemma_total_size_nonneg(init);
        assert(ivs.last() == ivs[ivs.len() - 1]);
    }
}

/// Puts ranges that share no number in ascending order.
fn sort_ranges(ranges: &mut Vec<SimpleRange>)
    requires
        each_wf(old(ranges)@),
        disjoint(bounds(old(ranges)@)),
    ensures
        each_wf(final(ranges)@),
        ascending(bounds(final(ranges)@)),
        cover_set(bounds(final(ranges)@)) == cover_set(bounds(old(ranges)@)),
        final(ranges).len() == old(ranges).len(),
{
    let mut i: usize = 0;
    while i < ranges.len()
        invariant
            i <= ranges.len(),
            ranges.len() == old(ranges).len(),
            each_wf(ranges@),
            disjoint(bounds(ranges@)),
            ascending(bounds(ranges@.take(i as int))),
            cover_set(bounds(ranges@)) == cover_set(bounds(old(ranges)@)),
        decreases ranges.len() - i,
    {
        let ghost s0 = ranges@;
        let x = ranges.remove(i);
        let ghost s1 = ranges@;
        let mut k: usize = 0;
        while k < i && ranges[k].start < x.start
            invariant
                k <= i,
                i <= ranges.len(),
                ranges@ == s1,
                forall|m: int| 0 <= m < k ==> (#[trigger] ranges[m]).start < x.start,
            decreases i - k,
        {
            k = k + 1;
        }
        ranges.insert(k, x);
        proof {
            let s2 = ranges@;
            let b0 = bounds(s0);
            let b2 = bounds(s2);
            assert(bounds(s1) =~= b0.remove(i as int));
            assert(b2 =~= bounds(s1).insert(k as int, (x.start, x.end)));
            lemma_covers_remove(b0, i as int);
            lemma_covers_insert(bounds(s1), k as int, (x.start, x.end));
            assert(cover_set(b2) =~= cover_set(b0));
            // where each place of the new order comes from in the old one
            let from = |m: int|
                if m < k {
                    m
                } else if m == k {
                    i as int
                } else if m <= i {
                    m - 1
                } else {
                    m
                };
            assert forall|m: int| 0 <= m < s2.len() implies #[trigger] s2[m] == s0[from(m)] by {}
            assert forall|m: int| 0 <= m < s2.len() implies (#[trigger] s2[m]).wf() by {
                assert(s2[m] == s0[from(m)]);
            }
            assert forall|a: int, b: int| 0 <= a < b < b2.len() implies (#[trigger] b2[a]).1 < (
            #[trigger] b2[b]).0 || b2[b].1 < b2[a].0 by {
                assert(s2[a] == s0[from(a)]);
                assert(s2[b] == s0[from(b)]);
                let fa = from(a);
                let fb = from(b);
                if fa < fb {
                    assert(b0[fa].1 < b0[fb].0 || b0[fb].1 < b0[fa].0);
                } else {
                    assert(b0[fb].1 < b0[fa].0 || b0[fa].1 < b0[fb].0);
                }
            }
            let t0 = bounds(s0.take(i as int));
            let t2 = bounds(s2.take(i + 1));
            assert forall|a: int, b: int| 0 <= a < b < t2.len() implies (#[trigger] t2[a]).1 < (
            #[trigger] t2[b]).0 by {
                assert(s2[a] == s0[from(a)]);
                assert(s2[b] == s0[from(b)]);
                let fa = from(a);
                let fb = from(b);
                assert(s0[fa].wf());
                assert(s0[fb].wf());
                if fa < fb {
                    assert(b0[fa].1 < b0[fb].0 || b0[fb].1 < b0[fa].0);
                } else {
                    assert(b0[fb].1 < b0[fa].0 || b0[fa].1 < b0[fb].0);
                }
                if b == k {
                    assert(s1[a] == s0[a]);
                    assert(ranges@[a] == s0[a]);
                } else if a == k {
                    if k < i {
                        assert(s1[k as int] == s0[k as int]);
                        if b > k + 1 {
                            assert(t0[k as int] == b0[k as int]);
                            assert(t0[fb] == b0[fb]);
                            assert(t0[k as int].1 < t0[fb].0);
                        }
                    }
                } else {
                    assert(t0[fa] == b0[fa]);
                    assert(t0[fb] == b0[fb]);
                    assert(t0[fa].1 < t0[fb].0);
                }
            }
        }
        i = i + 1;
    }
    proof {
        assert(ranges@.take(i as int) =~= ranges@);
    }
}

impl Range {
    /// Joins ranges that touch, so that the fewest remain. Every range that
    /// results has its cursor at its start.
    fn condense_ranges(&mut self) -> (res: Result<(), Error>)
        requires
            each_wf(old(self).ranges@),
            disjoint(old(self)@),
        ensures
            res is Ok,
            final(self).wf(),
            final(self).cursors_fresh(),
            final(self).latest == old(self).latest,
            final(self).set() == old(self).set(),
    {
        let mut new_ranges: Vec<SimpleRange> = Vec::new();
        let mut lo: u32 = 0;
        let mut hi: Option<u32> = None;
        sort_ranges(&mut self.ranges);
        let ghost sorted = self@;
        let mut i: usize = 0;
        proof {
            assert(sorted.take(0) =~= Seq::<(u32, u32)>::empty());
            assert(cover_set(sorted.take(0)) =~= Set::<int>::empty());
            assert(cover_set(bounds(new_ranges@)) =~= Set::<int>::empty());
        }
        while i < self.ranges.len()
            invariant
                i <= self.ranges.len(),
                self@ == sorted,
                self.latest == old(self).latest,
                each_wf(self.ranges@),
                ascending(sorted),
                each_wf(new_ranges@),
                each_fresh(new_ranges@),
                canonical(bounds(new_ranges@)),
                (i == 0) == (hi is None),
                i == 0 ==> new_ranges.len() == 0,
                hi matches Some(h) ==> h == sorted[i - 1].1 && lo <= h && h < u32::MAX,
                hi is Some && new_ranges.len() > 0 ==> new_ranges[new_ranges.len() - 1].end + 1
                    < lo,
                cover_set(sorted.take(i as int)) == cover_set(bounds(new_ranges@)).union(
                    match hi {
                        Some(h) => interval_set(lo as int, h as int),
                        None => Set::<int>::empty(),
                    },
                ),
            decreases self.ranges.len() - i,
        {
            let r_start = self.ranges[i].start;
            let r_end = self.ranges[i].end;
            let ghost old_new = new_ranges@;
            let ghost old_lo = lo;
            proof {
                assert(self.ranges[i as int].wf());
                assert(sorted[i as int] == (r_start, r_end));
                if i > 0 {
                    assert(sorted[i - 1].1 < sorted[i as int].0);
                }
                assert(sorted.take(i + 1) =~= sorted.take(i as int).push(sorted[i as int]));
                lemma_covers_push(sorted.take(i as int), sorted[i as int]);
            }
            match hi {
                None => {
                    lo = r_start;
                },
                Some(h) => {
                    if h != r_start - 1 {
                        match SimpleRange::new(lo, h) {
                            Ok(range) => {
                                new_ranges.push(range);
                            },
                            Err(e) => {
                                return Err(e);
                            },
                        }
                        lo = r_start;
                        proof {
                            let nb = bounds(new_ranges@);
                            assert(new_ranges@.last().end == h);
                            assert(nb =~= bounds(old_new).push((old_lo, h)));
                            lemma_covers_push(bounds(old_new), (old_lo, h));
                            assert forall|a: int, b: int| 0 <= a < b < nb.len() implies (
                            #[trigger] nb[a]).1 + 1 < (#[trigger] nb[b]).0 by {
                                if b < old_new.len() {
                                    assert(nb[a] == bounds(old_new)[a]);
                                    assert(nb[b] == bounds(old_new)[b]);
                                } else if old_new.len() > 0 {
                                    let last = old_new.len() - 1;
                                    assert(nb[a] == bounds(old_new)[a]);
                                    if a < last {
                                        assert(bounds(old_new)[a].1 + 1 < bounds(old_new)[last].0);
                                    }
                                    assert(old_new[last].wf());
                                }
                            }
                        }
                    }
                },
            }
            hi = Some(r_end);
            proof {
                assert(cover_set(sorted.take(i + 1)) =~= cover_set(bounds(new_ranges@)).union(
                    interval_set(lo as int, r_end as int),
                ));
            }
            i = i + 1;
        }
        if let Some(h) = hi {
            let ghost old_new = new_ranges@;
            match SimpleRange::new(lo, h) {
                Ok(range) => {
                    new_ranges.push(range);
                },
                Err(e) => {
                    return Err(e);
                },
            }
            proof {
                let nb = bounds(new_ranges@);
                assert(nb =~= bounds(old_new).push((lo, h)));
                lemma_covers_push(bounds(old_new), (lo, h));
                assert forall|a: int, b: int| 0 <= a < b < nb.len() implies (#[trigger] nb[a]).1 + 1
                    < (#[trigger] nb[b]).0 by {
                    if b < old_new.len() {
                        assert(nb[a] == bounds(old_new)[a]);
                        assert(nb[b] == bounds(old_new)[b]);
                    } else if old_new.len() > 0 {
                        let last = old_new.len() - 1;
                        assert(nb[a] == bounds(old_new)[a]);
                        if a < last {
                            assert(bounds(old_new)[a].1 + 1 < bounds(old_new)[last].0);
                        }
                        assert(old_new[last].wf());
                    }
                }
            }
        }
        proof {
            assert(sorted.take(i as int) =~= sorted);
        }
        self.ranges = new_ranges;
        Ok(())
    }

    /// Adds the numbers of `range` to the set. Whatever of `range` the set holds
    /// already is cut away; what is left over is stored, and ranges that then
    /// touch are joined. The walk starts again from the smallest number.
    pub fn add_range(&mut self, range: &SimpleRange) -> (res: Result<(), Error>)
        requires
            old(self).wf(),
            range.start <= range.end < u32::MAX,
        ensures
            res is Ok,
            final(self).wf(),
            final(self).cursors_fresh(),
            final(self).latest == old(self).latest,
            final(self).set() == old(self).set().union(
                interval_set(range.start as int, range.end as int),
            ),
            final(self)@ == canon(old(self)@.push((range.start, range.end))),
            final(self).remaining() == final(self).values(),
    {
        let ghost goal = old(self).set().union(interval_set(range.start as int, range.end as int));
        let mut pending: Vec<(u32, u32)> = Vec::new();
        pending.push((range.start, range.end));
        proof {
            assert(pending@ =~= Seq::<(u32, u32)>::empty().push((range.start, range.end)));
            lemma_covers_push(Seq::<(u32, u32)>::empty(), (range.start, range.end));
            assert(cover_set(Seq::<(u32, u32)>::empty()) =~= Set::<int>::empty());
            assert(self.set().union(cover_set(pending@)) =~= goal);
        }
        // The pieces that wait share no number, so that none waits twice.
        while pending.len() > 0
            invariant
                each_wf(self.ranges@),
                disjoint(self@),
                valid(pending@),
                disjoint(pending@),
                self.latest == old(self).latest,
                self.set().union(cover_set(pending@)) == goal,
            decreases total_size(pending@),
        {
            let ghost p_before = pending@;
            let (lo_first, hi_first) = pending.pop().unwrap();
            let mut lo = lo_first;
            let mut hi = hi_first;
            let ghost p0 = pending@;
            proof {
                assert(p_before =~= p0.push((lo_first, hi_first)));
                lemma_covers_push(p0, (lo_first, hi_first));
                assert(p_before[p_before.len() - 1] == (lo_first, hi_first));
                assert(p_before.drop_last() =~= p0);
                assert(total_size(p_before) == total_size(p0) + (hi_first - lo_first + 1));
                assert forall|k: int| 0 <= k < p0.len() implies (#[trigger] p0[k]).0 <= p0[k].1
                    < u32::MAX by {
                    assert(p0[k] == p_before[k]);
                }
                assert forall|k: int| 0 <= k < p0.len() implies (#[trigger] p0[k]).1 < lo_first
                    || hi_first < p0[k].0 by {
                    assert(p0[k] == p_before[k]);
                    assert(p_before[k].1 < p_before[p_before.len() - 1].0 || p_before[p_before.len()
                        - 1].1 < p_before[k].0);
                }
                assert(disjoint(p0)) by {
                    assert forall|x: int, y: int| 0 <= x < y < p0.len() implies (#[trigger] p0[x]).1
                        < (#[trigger] p0[y]).0 || p0[y].1 < p0[x].0 by {
                        assert(p0[x] == p_before[x] && p0[y] == p_before[y]);
                    }
                }
                lemma_total_size_nonneg(p0);
            }
            let mut keep = true;
            let mut i: usize = 0;
            while keep && i < self.ranges.len()
                invariant
                    i <= self.ranges.len(),
                    each_wf(self.ranges@),
                    valid(pending@),
                    disjoint(pending@),
                    pending.len() >= p0.len(),
                    forall|k: int| 0 <= k < p0.len() ==> #[trigger] pending[k] == p0[k],
                    forall|k: int|
                        0 <= k < p0.len() ==> (#[trigger] p0[k]).1 < lo_first || hi_first < p0[k].0,
                    forall|k: int|
                        p0.len() <= k < pending.len() ==> hi < (#[trigger] pending[k]).0
                            && pending[k].1 <= hi_first,
                    lo_first <= lo <= hi <= hi_first < u32::MAX,
                    cover_set(p0).subset_of(cover_set(pending@)),
                    cover_set(pending@).subset_of(
                        cover_set(p0).union(interval_set(lo_first as int, hi_first as int)),
                    ),
                    interval_set(lo_first as int, hi_first as int).subset_of(
                        self.set().union(cover_set(pending@)).union(
                            if keep {
                                interval_set(lo as int, hi as int)
                            } else {
                                Set::<int>::empty()
                            },
                        ),
                    ),
                    keep ==> forall|k: int|
                        0 <= k < i ==> (#[trigger] self@[k]).1 < lo || hi < self@[k].0,
                    total_size(pending@) + (hi - lo + 1) <= total_size(p0) + (hi_first - lo_first
                        + 1),
                decreases self.ranges.len() - i, keep as int,
            {
                let a = self.ranges[i].start;
                let b = self.ranges[i].end;
                proof {
                    assert(self.ranges[i as int].wf());
                    assert(self@[i as int] == (a, b));
                    assert forall|v: int| a <= v <= b implies self.set().contains(v) by {
                        assert(self@[i as int].0 <= v <= self@[i as int].1);
                    }
                }
                if lo >= a && hi <= b {
                    // the set holds all of the piece already
                    keep = false;
                } else {
                    if lo < a && hi > b {
                        // the piece reaches over both ends: the right part waits its
                        // turn, the left part goes on
                        let ghost pq = pending@;
                        pending.push((b + 1, hi));
                        proof {
                            lemma_covers_push(pq, ((b + 1) as u32, hi));
                            assert(pending@.drop_last() =~= pq);
                            assert forall|x: int, y: int| 0 <= x < y < pending.len() implies (
                            #[trigger] pending[x]).1 < (#[trigger] pending[y]).0 || pending[y].1
                                < pending[x].0 by {
                                assert(pending[x] == pq[x]);
                                if y < pq.len() {
                                    assert(pending[y] == pq[y]);
                                } else if x < p0.len() {
                                    assert(pq[x] == p0[x]);
                                }
                            }
                        }
                        hi = a - 1;
                    } else if hi >= a && hi <= b {
                        hi = a - 1;
                    } else if lo >= a && lo <= b {
                        lo = b + 1;
                    }
                    i = i + 1;
                }
            }
            if keep {
                let ghost rs = self.ranges@;
                let ghost bs = self@;
                match SimpleRange::new(lo, hi) {
                    Ok(piece) => {
                        self.ranges.push(piece);
                        proof {
                            assert(self@ =~= bs.push((lo, hi)));
                            lemma_covers_push(bs, (lo, hi));
                            assert forall|k: int| 0 <= k < self.ranges.len() implies (
                            #[trigger] self.ranges[k]).wf() by {
                                if k < rs.len() {
                                    assert(self.ranges[k] == rs[k]);
                                }
                            }
                            assert forall|x: int, y: int| 0 <= x < y < self@.len() implies (
                            #[trigger] self@[x]).1 < (#[trigger] self@[y]).0 || self@[y].1
                                < self@[x].0 by {
                                assert(self@[x] == bs[x]);
                                if y < bs.len() {
                                    assert(self@[y] == bs[y]);
                                }
                            }
                        }
                    },
                    Err(_) => {},
                }
            }
            proof {
                assert(self.set().union(cover_set(pending@)) =~= goal);
                lemma_total_size_nonneg(pending@);
            }
        }
        proof {
            assert(cover_set(pending@) =~= Set::<int>::empty());
            assert(self.set() =~= goal);
        }
        let res = self.condense_ranges();
        proof {
            lemma_remaining_len(self.ranges@);
            lemma_covers_push(old(self)@, (range.start, range.end));
            lemma_canon_is(self@, old(self)@.push((range.start, range.end)));
        }
        res
    }

    /// Adds every number of `other` to the set.
    pub fn merge(&mut self, other: &Range) -> (res: Result<(), Error>)
        requires
            old(self).wf(),
            other.wf(),
        ensures
            res is Ok,
            final(self).wf(),
            final(self).latest == old(self).latest,
            final(self).set() == old(self).set().union(other.set()),
            final(self)@ == canon(old(self)@ + other@),
            other@.len() > 0 ==> final(self).cursors_fresh(),
            other@.len() == 0 ==> final(self).ranges@ == old(self).ranges@,
            old(self).remaining() == old(self).values() ==> final(self).remaining()
                == final(self).values(),
    {
        let mut i: usize = 0;
        proof {
            assert(other@.take(0) =~= Seq::<(u32, u32)>::empty());
            assert(cover_set(other@.take(0)) =~= Set::<int>::empty());
            assert(self.set().union(cover_set(other@.take(0))) =~= self.set());
        }
        while i < other.ranges.len()
            invariant
                i <= other.ranges.len(),
                other.wf(),
                self.wf(),
                self.latest == old(self).latest,
                self.set() == old(self).set().union(cover_set(other@.take(i as int))),
                i > 0 ==> self.cursors_fresh(),
                i > 0 ==> self.remaining() == self.values(),
                i == 0 ==> self.ranges@ == old(self).ranges@,
            decreases other.ranges.len() - i,
        {
            proof {
                assert(other.ranges[i as int].wf());
                assert(other@[i as int] == (other.ranges[i as int].start, other.ranges[i as int].end));
                assert(other@.take(i + 1) =~= other@.take(i as int).push(other@[i as int]));
                lemma_covers_push(other@.take(i as int), other@[i as int]);
            }
            let ghost before = self.set();
            match self.add_range(&other.ranges[i]) {
                Ok(_) => {},
                Err(e) => {
                    return Err(e);
                },
            }
            proof {
                assert(self.set() =~= old(self).set().union(cover_set(other@.take(i + 1))));
            }
            i = i + 1;
        }
        proof {
            assert(other@.take(i as int) =~= other@);
            lemma_covers_concat(old(self)@, other@);
            lemma_canon_is(self@, old(self)@ + other@);
        }
        Ok(())
    }
}

/// Merging is commutative: the one set merged into the other is the other
/// merged into the one.
pub proof fn lemma_merge_commutes(xy: Range, yx: Range, x: Range, y: Range)
    requires
        xy.wf(),
        yx.wf(),
        xy.set() == x.set().union(y.set()),
        yx.set() == y.set().union(x.set()),
    ensures
        xy@ == yx@,
{
    assert(x.set().union(y.set()) =~= y.set().union(x.set()));
    lemma_canonical_unique(xy@, yx@);
}

/// Merging is idempotent: a set merged into itself is itself.
pub proof fn lemma_merge_idempotent(xx: Range, x: Range)
    requires
        xx.wf(),
        x.wf(),
        xx.set() == x.set().union(x.set()),
    ensures
        xx@ == x@,
{
    assert(x.set().union(x.set()) =~= x.set());
    lemma_canonical_unique(xx@, x@);
}

/// The first ranges of a well-formed set are well formed and canonical.
proof fn lemma_take_wf(rs: Seq<SimpleRange>, n: int)
    requires
        each_wf(rs),
        canonical(bounds(rs)),
        0 <= n <= rs.len(),
    ensures
        each_wf(rs.take(n)),
        valid(bounds(rs.take(n))),
        ascending(bounds(rs.take(n))),
        canonical(bounds(rs.take(n))),
{
    let t = rs.take(n);
    assert forall|i: int| 0 <= i < t.len() implies (#[trigger] t[i]).wf() by {
        assert(t[i] == rs[i]);
    }
    assert forall|i: int| 0 <= i < t.len() implies (#[trigger] bounds(t)[i]).0 <= bounds(t)[i].1
        < u32::MAX by {
        assert(bounds(t)[i] == bounds(rs)[i]);
    }
    assert forall|i: int, j: int| 0 <= i < j < t.len() implies (#[trigger] bounds(t)[i]).1 + 1 < (
    #[trigger] bounds(t)[j]).0 by {
        assert(bounds(t)[i] == bounds(rs)[i]);
        assert(bounds(t)[j] == bounds(rs)[j]);
    }
}

} // verus!
