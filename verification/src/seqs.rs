//! Sequences of sequences laid end to end.

use vstd::prelude::*;

verus! {

/// The items of all the sequences, sequence after sequence.
pub open spec fn concat_all<T>(ss: Seq<Seq<T>>) -> Seq<T>
    decreases ss.len(),
{
    if ss.len() == 0 {
        Seq::empty()
    } else {
        concat_all(ss.drop_last()) + ss.last()
    }
}

/// Empty sequences laid end to end are empty.
pub proof fn lemma_concat_all_empty<T>(ss: Seq<Seq<T>>)
    requires
        forall|i: int| 0 <= i < ss.len() ==> (#[trigger] ss[i]).len() == 0,
    ensures
        concat_all(ss).len() == 0,
    decreases ss.len(),
{
    if ss.len() > 0 {
        let init = ss.drop_last();
        assert forall|i: int| 0 <= i < init.len() implies (#[trigger] init[i]).len() == 0 by {
            assert(init[i] == ss[i]);
        }
        lemma_concat_all_empty(init);
        assert(ss.last() == ss[ss.len() - 1]);
    }
}

/// Where the whole is empty, each of the sequences is.
pub proof fn lemma_concat_all_none<T>(ss: Seq<Seq<T>>)
    requires
        concat_all(ss).len() == 0,
    ensures
        forall|i: int| 0 <= i < ss.len() ==> (#[trigger] ss[i]).len() == 0,
    decreases ss.len(),
{
    if ss.len() > 0 {
        let init = ss.drop_last();
        lemma_concat_all_none(init);
        assert forall|i: int| 0 <= i < ss.len() implies (#[trigger] ss[i]).len() == 0 by {
            if i < init.len() {
                assert(init[i] == ss[i]);
            }
        }
    }
}

/// The first sequences hold no more than all of them.
pub proof fn lemma_concat_all_take<T>(ss: Seq<Seq<T>>, n: int)
    requires
        0 <= n <= ss.len(),
    ensures
        concat_all(ss.take(n)).len() <= concat_all(ss).len(),
    decreases ss.len() - n,
{
    if n < ss.len() {
        assert(ss.take(n + 1).drop_last() =~= ss.take(n));
        lemma_concat_all_take(ss, n + 1);
    } else {
        assert(ss.take(n) =~= ss);
    }
}

/// Where all sequences before the `k`-th are empty and the `k`-th is not, the
/// first item of the whole is the first of the `k`-th, and to take it from there
/// is to take it from the whole.
pub proof fn lemma_concat_all_step<T>(ss: Seq<Seq<T>>, k: int)
    requires
        0 <= k < ss.len(),
        forall|i: int| 0 <= i < k ==> (#[trigger] ss[i]).len() == 0,
        ss[k].len() > 0,
    ensures
        concat_all(ss).len() > 0,
        concat_all(ss)[0] == ss[k][0],
        concat_all(ss.update(k, ss[k].drop_first())) == concat_all(ss).drop_first(),
    decreases ss.len(),
{
    let init = ss.drop_last();
    let upd = ss.update(k, ss[k].drop_first());
    if k == ss.len() - 1 {
        assert forall|i: int| 0 <= i < init.len() implies (#[trigger] init[i]).len() == 0 by {
            assert(init[i] == ss[i]);
        }
        lemma_concat_all_empty(init);
        assert(upd.drop_last() =~= init);
        assert(concat_all(upd) =~= concat_all(ss).drop_first());
    } else {
        assert(init[k] == ss[k]);
        assert forall|i: int| 0 <= i < k implies (#[trigger] init[i]).len() == 0 by {
            assert(init[i] == ss[i]);
        }
        lemma_concat_all_step(init, k);
        assert(upd.drop_last() =~= init.update(k, ss[k].drop_first()));
        assert(upd.last() == ss.last());
        assert(concat_all(upd) =~= concat_all(ss).drop_first());
    }
}

/// A sequence taken out takes its length from that of the whole.
pub proof fn lemma_concat_all_remove<T>(ss: Seq<Seq<T>>, k: int)
    requires
        0 <= k < ss.len(),
    ensures
        concat_all(ss).len() == concat_all(ss.remove(k)).len() + ss[k].len(),
    decreases ss.len(),
{
    let init = ss.drop_last();
    if k == ss.len() - 1 {
        assert(ss.remove(k) =~= init);
    } else {
        lemma_concat_all_remove(init, k);
        assert(init[k] == ss[k]);
        assert(ss.remove(k).drop_last() =~= init.remove(k));
        assert(ss.remove(k).last() == ss.last());
    }
}

/// A sequence put in among the others adds its length to that of the whole.
pub proof fn lemma_concat_all_insert<T>(ss: Seq<Seq<T>>, k: int, x: Seq<T>)
    requires
        0 <= k <= ss.len(),
    ensures
        concat_all(ss.insert(k, x)).len() == concat_all(ss).len() + x.len(),
{
    let w = ss.insert(k, x);
    assert(w.remove(k) =~= ss);
    assert(w[k] == x);
    lemma_concat_all_remove(w, k);
}

/// Each item of the whole is an item of one of the sequences.
pub proof fn lemma_concat_all_item<T>(ss: Seq<Seq<T>>, x: int) -> (place: (int, int))
    requires
        0 <= x < concat_all(ss).len(),
    ensures
        0 <= place.0 < ss.len(),
        0 <= place.1 < ss[place.0].len(),
        ss[place.0][place.1] == concat_all(ss)[x],
    decreases ss.len(),
{
    let init = ss.drop_last();
    if x < concat_all(init).len() {
        let place = lemma_concat_all_item(init, x);
        assert(init[place.0] == ss[place.0]);
        place
    } else {
        (ss.len() - 1, x - concat_all(init).len())
    }
}

/// Each item of one of the sequences is an item of the whole.
pub proof fn lemma_concat_all_has<T>(ss: Seq<Seq<T>>, i: int, m: int) -> (x: int)
    requires
        0 <= i < ss.len(),
        0 <= m < ss[i].len(),
    ensures
        0 <= x < concat_all(ss).len(),
        concat_all(ss)[x] == ss[i][m],
    decreases ss.len(),
{
    let init = ss.drop_last();
    if i < ss.len() - 1 {
        assert(init[i] == ss[i]);
        lemma_concat_all_has(init, i, m)
    } else {
        concat_all(init).len() + m
    }
}

} // verus!
