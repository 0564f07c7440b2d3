//! The order in which the entries of an expression are kept: sequences are
//! compared item by item, and of two sequences of which one begins the other the
//! shorter comes first.

use vstd::prelude::*;
use vstd::relations::{sorted_by, total_ordering};
use vstd::string::*;
use crate::range::Range;
use crate::token::Part;

verus! {

/// Compares two sequences item by item with `f`: -1 where `a` comes first, 1
/// where `b` does, 0 where `f` tells no item of the one from that of the other.
pub open spec fn lex_compare<T>(a: Seq<T>, b: Seq<T>, f: spec_fn(T, T) -> int) -> int
    decreases a.len(),
{
    if a.len() == 0 {
        if b.len() == 0 {
            0
        } else {
            -1
        }
    } else if b.len() == 0 {
        1
    } else if f(a[0], b[0]) != 0 {
        f(a[0], b[0])
    } else {
        lex_compare(a.drop_first(), b.drop_first(), f)
    }
}

/// Whether `f` compares as an order does: it answers -1, 0 or 1, the opposite
/// when its arguments change places, and it is transitive.
pub open spec fn is_order<T>(f: spec_fn(T, T) -> int) -> bool {
    &&& forall|x: T, y: T| -1 <= #[trigger] f(x, y) <= 1 && f(y, x) == -f(x, y)
    &&& forall|x: T, y: T, z: T|
        #[trigger] f(x, y) <= 0 && #[trigger] f(y, z) <= 0 ==> f(x, z) <= 0 && (f(x, z) == 0
            ==> f(x, y) == 0 && f(y, z) == 0)
    &&& forall|x: T, y: T| #[trigger] f(x, y) == 0 ==> x == y
}

/// The comparison of sequences that `f` gives rise to.
pub open spec fn lex_order<T>(f: spec_fn(T, T) -> int) -> spec_fn(Seq<T>, Seq<T>) -> int {
    |a: Seq<T>, b: Seq<T>| lex_compare(a, b, f)
}

/// Sequences compared the other way round compare the opposite, and sequences
/// that compare as equal are equal.
pub proof fn lemma_lex_flip<T>(a: Seq<T>, b: Seq<T>, f: spec_fn(T, T) -> int)
    requires
        is_order(f),
    ensures
        -1 <= lex_compare(a, b, f) <= 1,
        lex_compare(b, a, f) == -lex_compare(a, b, f),
        lex_compare(a, b, f) == 0 ==> a == b,
    decreases a.len(),
{
    if a.len() > 0 && b.len() > 0 {
        let c = f(a[0], b[0]);
        assert(f(b[0], a[0]) == -c);
        if c == 0 {
            lemma_lex_flip(a.drop_first(), b.drop_first(), f);
            if lex_compare(a, b, f) == 0 {
                assert(a[0] == b[0]);
                assert(a =~= seq![a[0]] + a.drop_first());
                assert(b =~= seq![b[0]] + b.drop_first());
            }
        }
    } else if a.len() == 0 && b.len() == 0 {
        assert(a =~= b);
    }
}

/// What comes before a sequence comes before all that come after it.
pub proof fn lemma_lex_trans<T>(a: Seq<T>, b: Seq<T>, c: Seq<T>, f: spec_fn(T, T) -> int)
    requires
        is_order(f),
        lex_compare(a, b, f) <= 0,
        lex_compare(b, c, f) <= 0,
    ensures
        lex_compare(a, c, f) <= 0,
        lex_compare(a, c, f) == 0 ==> lex_compare(a, b, f) == 0 && lex_compare(b, c, f) == 0,
    decreases a.len(),
{
    if a.len() > 0 {
        assert(b.len() > 0);
        assert(c.len() > 0);
        let ab = f(a[0], b[0]);
        let bc = f(b[0], c[0]);
        assert(ab <= 0);
        assert(bc <= 0);
        let ac = f(a[0], c[0]);
        assert(ac <= 0 && (ac == 0 ==> ab == 0 && bc == 0));
        if ac == 0 {
            lemma_lex_trans(a.drop_first(), b.drop_first(), c.drop_first(), f);
        }
    }
}

/// Sequences compared by an order are in an order themselves.
pub proof fn lemma_lex_is_order<T>(f: spec_fn(T, T) -> int)
    requires
        is_order(f),
    ensures
        is_order(lex_order(f)),
{
    let g = lex_order(f);
    assert forall|x: Seq<T>, y: Seq<T>| -1 <= #[trigger] g(x, y) <= 1 && g(y, x) == -g(x, y) by {
        lemma_lex_flip(x, y, f);
    }
    assert forall|x: Seq<T>, y: Seq<T>, z: Seq<T>| #[trigger]
        g(x, y) <= 0 && #[trigger] g(y, z) <= 0 implies g(x, z) <= 0 && (g(x, z) == 0 ==> g(x, y)
        == 0 && g(y, z) == 0) by {
        lemma_lex_trans(x, y, z, f);
    }
    assert forall|x: Seq<T>, y: Seq<T>| #[trigger] g(x, y) == 0 implies x == y by {
        lemma_lex_flip(x, y, f);
    }
}

/// Each item comes strictly before the ones after it.
pub open spec fn ascending_by<T>(a: Seq<T>, f: spec_fn(T, T) -> int) -> bool {
    forall|i: int, j: int| 0 <= i < j < a.len() ==> f(#[trigger] a[i], #[trigger] a[j]) < 0
}

/// Whether `x` is one of the items.
pub open spec fn is_item<T>(a: Seq<T>, x: T) -> bool {
    exists|i: int| 0 <= i < a.len() && #[trigger] a[i] == x
}

/// Two ascending sequences with the same items are one sequence.
pub proof fn lemma_ascending_unique<T>(a: Seq<T>, b: Seq<T>, f: spec_fn(T, T) -> int)
    requires
        is_order(f),
        ascending_by(a, f),
        ascending_by(b, f),
        forall|x: T| is_item(a, x) <==> is_item(b, x),
    ensures
        a == b,
    decreases a.len(),
{
    if a.len() == 0 || b.len() == 0 {
        if a.len() > 0 {
            assert(a[0] == a[0]);
            assert(is_item(a, a[0]));
            assert(is_item(b, a[0]));
        }
        if b.len() > 0 {
            assert(b[0] == b[0]);
            assert(is_item(b, b[0]));
            assert(is_item(a, b[0]));
        }
        assert(a =~= b);
    } else {
        let la = a.last();
        let lb = b.last();
        assert(a[a.len() - 1] == la);
        assert(b[b.len() - 1] == lb);
        assert(is_item(a, la));
        assert(is_item(b, lb));
        assert(is_item(b, la));
        assert(is_item(a, lb));
        let j = choose|j: int| 0 <= j < b.len() && #[trigger] b[j] == la;
        let i = choose|i: int| 0 <= i < a.len() && #[trigger] a[i] == lb;
        assert(f(la, la) == -f(la, la));
        assert(f(lb, lb) == -f(lb, lb));
        // `la` is in `b`, so it is not after the last of `b`, and the other way round
        assert(f(la, lb) <= 0) by {
            if j < b.len() - 1 {
                assert(f(b[j], b[b.len() - 1]) < 0);
            }
        }
        assert(f(lb, la) <= 0) by {
            if i < a.len() - 1 {
                assert(f(a[i], a[a.len() - 1]) < 0);
            }
        }
        assert(f(lb, la) == -f(la, lb));
        assert(f(la, lb) == 0);
        assert(la == lb);
        let ia = a.drop_last();
        let ib = b.drop_last();
        assert(ascending_by(ia, f)) by {
            assert forall|x: int, y: int| 0 <= x < y < ia.len() implies f(
                #[trigger] ia[x],
                #[trigger] ia[y],
            ) < 0 by {
                assert(ia[x] == a[x] && ia[y] == a[y]);
            }
        }
        assert(ascending_by(ib, f)) by {
            assert forall|x: int, y: int| 0 <= x < y < ib.len() implies f(
                #[trigger] ib[x],
                #[trigger] ib[y],
            ) < 0 by {
                assert(ib[x] == b[x] && ib[y] == b[y]);
            }
        }
        assert forall|x: T| is_item(ia, x) <==> is_item(ib, x) by {
            lemma_init_items(a, b, f, x);
            lemma_init_items(b, a, f, x);
        }
        lemma_ascending_unique(ia, ib, f);
        assert(a =~= ia.push(la));
        assert(b =~= ib.push(lb));
    }
}

/// An item of all but the last of `a` is an item of all but the last of `b`,
/// where both ascend, have the same items and end alike.
proof fn lemma_init_items<T>(a: Seq<T>, b: Seq<T>, f: spec_fn(T, T) -> int, x: T)
    requires
        is_order(f),
        ascending_by(a, f),
        ascending_by(b, f),
        a.len() > 0,
        b.len() > 0,
        a.last() == b.last(),
        forall|y: T| is_item(a, y) <==> is_item(b, y),
    ensures
        is_item(a.drop_last(), x) ==> is_item(b.drop_last(), x),
{
    let ia = a.drop_last();
    let ib = b.drop_last();
    if is_item(ia, x) {
        let i = choose|i: int| 0 <= i < ia.len() && #[trigger] ia[i] == x;
        assert(a[i] == x);
        assert(is_item(a, x));
        assert(is_item(b, x));
        let j = choose|j: int| 0 <= j < b.len() && #[trigger] b[j] == x;
        assert(f(a[i], a[a.len() - 1]) < 0);
        assert(f(x, x) == -f(x, x));
        if j == b.len() - 1 {
            assert(x == a.last());
        }
        assert(ib[j] == x);
    }
}

/// Numbers in their order.
pub open spec fn number_order() -> spec_fn(u32, u32) -> int {
    |x: u32, y: u32|
        if x < y {
            -1int
        } else if x > y {
            1int
        } else {
            0int
        }
}

/// Numbers are in an order.
pub proof fn lemma_number_order()
    ensures
        is_order(number_order()),
{
    let f = number_order();
    assert forall|x: u32, y: u32| #[trigger] f(x, y) == 0 implies x == y by {}
}

/// Characters in the order of their code points.
pub open spec fn char_order() -> spec_fn(char, char) -> int {
    |x: char, y: char|
        if x < y {
            -1int
        } else if x > y {
            1int
        } else {
            0int
        }
}

/// Bounds by their starts, and by their ends where the starts are equal.
pub open spec fn pair_order() -> spec_fn((u32, u32), (u32, u32)) -> int {
    |x: (u32, u32), y: (u32, u32)|
        if x.0 < y.0 {
            -1int
        } else if x.0 > y.0 {
            1int
        } else if x.1 < y.1 {
            -1int
        } else if x.1 > y.1 {
            1int
        } else {
            0int
        }
}

/// Compares two pieces: text comes before numbers, texts are compared character
/// by character, and numbers range by range.
pub open spec fn part_compare(p: Part, q: Part) -> int {
    match (p, q) {
        (Part::Text(a), Part::Text(b)) => lex_compare(a, b, char_order()),
        (Part::Text(_), Part::Numbers(_)) => -1,
        (Part::Numbers(_), Part::Text(_)) => 1,
        (Part::Numbers(a), Part::Numbers(b)) => lex_compare(a, b, pair_order()),
    }
}

/// The comparison of pieces as a value.
pub open spec fn part_order() -> spec_fn(Part, Part) -> int {
    |p: Part, q: Part| part_compare(p, q)
}

/// Compares two entries piece by piece.
pub open spec fn entry_compare(a: Seq<Part>, b: Seq<Part>) -> int {
    lex_compare(a, b, part_order())
}

/// Characters are in an order.
pub proof fn lemma_char_order()
    ensures
        is_order(char_order()),
{
    let f = char_order();
    assert forall|x: char, y: char| #[trigger] f(x, y) == 0 implies x == y by {}
}

/// Bounds are in an order.
pub proof fn lemma_pair_order()
    ensures
        is_order(pair_order()),
{
    let f = pair_order();
    assert forall|x: (u32, u32), y: (u32, u32)| #[trigger] f(x, y) == 0 implies x == y by {}
}

/// Pieces are in an order.
pub proof fn lemma_part_order()
    ensures
        is_order(part_order()),
{
    let f = part_order();
    lemma_char_order();
    lemma_pair_order();
    assert forall|x: Part, y: Part| -1 <= #[trigger] f(x, y) <= 1 && f(y, x) == -f(x, y) by {
        match (x, y) {
            (Part::Text(a), Part::Text(b)) => {
                lemma_lex_flip(a, b, char_order());
            },
            (Part::Numbers(a), Part::Numbers(b)) => {
                lemma_lex_flip(a, b, pair_order());
            },
            _ => {},
        }
    }
    assert forall|x: Part, y: Part, z: Part| #[trigger]
        f(x, y) <= 0 && #[trigger] f(y, z) <= 0 implies f(x, z) <= 0 && (f(x, z) == 0 ==> f(x, y)
        == 0 && f(y, z) == 0) by {
        match (x, y, z) {
            (Part::Text(a), Part::Text(b), Part::Text(c)) => {
                lemma_lex_trans(a, b, c, char_order());
            },
            (Part::Numbers(a), Part::Numbers(b), Part::Numbers(c)) => {
                lemma_lex_trans(a, b, c, pair_order());
            },
            _ => {},
        }
    }
    assert forall|x: Part, y: Part| #[trigger] f(x, y) == 0 implies x == y by {
        match (x, y) {
            (Part::Text(a), Part::Text(b)) => {
                lemma_lex_flip(a, b, char_order());
            },
            (Part::Numbers(a), Part::Numbers(b)) => {
                lemma_lex_flip(a, b, pair_order());
            },
            _ => {},
        }
    }
}

/// Entries are in an order: of any two one comes first or they are equal, and
/// what comes before an entry comes before all that come after it.
pub proof fn lemma_entry_order(a: Seq<Part>, b: Seq<Part>, c: Seq<Part>)
    ensures
        -1 <= entry_compare(a, b) <= 1,
        entry_compare(b, a) == -entry_compare(a, b),
        entry_compare(a, b) == 0 ==> a == b,
        entry_compare(a, b) <= 0 && entry_compare(b, c) <= 0 ==> entry_compare(a, c) <= 0,
{
    lemma_part_order();
    lemma_lex_flip(a, b, part_order());
    if entry_compare(a, b) <= 0 && entry_compare(b, c) <= 0 {
        lemma_lex_trans(a, b, c, part_order());
    }
}

/// Whether entry `a` comes before entry `b` or is equal to it.
pub open spec fn entry_le() -> spec_fn(Seq<Part>, Seq<Part>) -> bool {
    |a: Seq<Part>, b: Seq<Part>| entry_compare(a, b) <= 0
}

/// The order of entries is total.
pub proof fn lemma_entry_le_total()
    ensures
        total_ordering(entry_le()),
{
    let r = entry_le();
    assert forall|x: Seq<Part>| #[trigger] r(x, x) by {
        lemma_entry_order(x, x, x);
    }
    assert forall|x: Seq<Part>, y: Seq<Part>| #[trigger] r(x, y) && #[trigger] r(y, x) implies x
        == y by {
        lemma_entry_order(x, y, x);
    }
    assert forall|x: Seq<Part>, y: Seq<Part>, z: Seq<Part>| #[trigger]
        r(x, y) && #[trigger] r(y, z) implies r(x, z) by {
        lemma_entry_order(x, y, z);
    }
    assert forall|x: Seq<Part>, y: Seq<Part>| #[trigger] r(x, y) || #[trigger] r(y, x) by {
        lemma_entry_order(x, y, x);
    }
}

/// Each entry comes before, or is equal to, the ones after it.
pub open spec fn sorted(es: Seq<Seq<Part>>) -> bool {
    sorted_by(es, entry_le())
}

/// Compares two texts character by character.
pub fn compare_text(a: &str, b: &str) -> (r: i8)
    ensures
        r == lex_compare(a@, b@, char_order()),
{
    let na = a.unicode_len();
    let nb = b.unicode_len();
    let mut i: usize = 0;
    proof {
        assert(a@.skip(0) =~= a@);
        assert(b@.skip(0) =~= b@);
    }
    while i < na && i < nb
        invariant
            na == a@.len(),
            nb == b@.len(),
            i <= na,
            i <= nb,
            lex_compare(a@, b@, char_order()) == lex_compare(a@.skip(i as int), b@.skip(i as int), char_order()),
        decreases na - i,
    {
        let x = a.get_char(i);
        let y = b.get_char(i);
        proof {
            assert(a@.skip(i as int)[0] == x);
            assert(b@.skip(i as int)[0] == y);
            assert(a@.skip(i as int).drop_first() =~= a@.skip(i + 1));
            assert(b@.skip(i as int).drop_first() =~= b@.skip(i + 1));
        }
        if x < y {
            return -1;
        }
        if x > y {
            return 1;
        }
        i = i + 1;
    }
    if na == nb {
        0
    } else if i == na {
        -1
    } else {
        1
    }
}

/// Compares two sets of numbers range by range.
pub fn compare_ranges(a: &Range, b: &Range) -> (r: i8)
    ensures
        r == lex_compare(a@, b@, pair_order()),
{
    let mut i: usize = 0;
    proof {
        assert(a@.skip(0) =~= a@);
        assert(b@.skip(0) =~= b@);
    }
    while i < a.ranges.len() && i < b.ranges.len()
        invariant
            i <= a.ranges.len(),
            i <= b.ranges.len(),
            lex_compare(a@, b@, pair_order()) == lex_compare(
                a@.skip(i as int),
                b@.skip(i as int),
                pair_order(),
            ),
        decreases a.ranges.len() - i,
    {
        let x = (a.ranges[i].start, a.ranges[i].end);
        let y = (b.ranges[i].start, b.ranges[i].end);
        proof {
            assert(a@.skip(i as int)[0] == x);
            assert(b@.skip(i as int)[0] == y);
            assert(a@.skip(i as int).drop_first() =~= a@.skip(i + 1));
            assert(b@.skip(i as int).drop_first() =~= b@.skip(i + 1));
        }
        if x.0 < y.0 {
            return -1;
        }
        if x.0 > y.0 {
            return 1;
        }
        if x.1 < y.1 {
            return -1;
        }
        if x.1 > y.1 {
            return 1;
        }
        i = i + 1;
    }
    if a.ranges.len() == b.ranges.len() {
        0
    } else if i == a.ranges.len() {
        -1
    } else {
        1
    }
}

} // verus!
