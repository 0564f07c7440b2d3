//! One template of host names: literal text with sets of numbers in it, and the
//! walk through all the names it stands for.

use vstd::prelude::*;
use vstd::arithmetic::div_mod::*;
use vstd::arithmetic::mul::*;
use vstd::string::*;
use crate::error::Error;
use crate::parser::{is_read_entry, is_read_part};
use crate::range::{
    canon, cover_set, lemma_canon_is, lemma_covers_push, range_text, values, Range,
};
use crate::readback::{is_canonical_entry, is_canonical_part};
use crate::simplerange::SimpleRange;
use crate::text::{decimal, decimal_string};
use crate::token::{token_parts, Part, Token};

verus! {

/// How many values a piece can take: one for text, and for numbers as many as
/// the set has members.
pub open spec fn radix(p: Part) -> nat {
    match p {
        Part::Text(_) => 1,
        Part::Numbers(ivs) => values(ivs).len(),
    }
}

/// How many names the pieces stand for: the product of their radices.
pub open spec fn cardinality(ps: Seq<Part>) -> nat
    decreases ps.len(),
{
    if ps.len() == 0 {
        1
    } else {
        cardinality(ps.drop_last()) * radix(ps.last())
    }
}

/// The product of the radices, as far as a counter can hold it: `None` as soon as
/// the product of the pieces up to one of them is too large.
pub open spec fn checked_cardinality(ps: Seq<Part>) -> Option<nat>
    decreases ps.len(),
{
    if ps.len() == 0 {
        Some(1nat)
    } else {
        match checked_cardinality(ps.drop_last()) {
            None => None,
            Some(c) => if c * radix(ps.last()) > usize::MAX {
                None
            } else {
                Some(c * radix(ps.last()))
            },
        }
    }
}

/// What a piece contributes to a name when it takes its `d`-th value.
pub open spec fn piece(p: Part, d: int) -> Seq<char> {
    match p {
        Part::Text(s) => s,
        Part::Numbers(ivs) => decimal(values(ivs)[d] as nat),
    }
}

/// The `k`-th name of the pieces, counted from 0. The last set of numbers
/// changes with every name, the one before it once the last has gone round, and
/// so on: `k` is read as a number whose digits are the places in the sets.
pub open spec fn name_at(ps: Seq<Part>, k: int) -> Seq<char>
    decreases ps.len(),
{
    if ps.len() == 0 {
        Seq::empty()
    } else {
        let r = radix(ps.last()) as int;
        name_at(ps.drop_last(), k / r) + piece(ps.last(), k % r)
    }
}

/// All names of the pieces in the order of the walk.
pub open spec fn names(ps: Seq<Part>) -> Seq<Seq<char>> {
    Seq::new(cardinality(ps), |k: int| name_at(ps, k))
}

/// What is left of `k` for the pieces before the `p`-th, once the pieces from
/// the `p`-th on have taken their digits.
pub open spec fn prefix_index(ps: Seq<Part>, p: int, k: int) -> int
    decreases ps.len() - p,
{
    if p >= ps.len() {
        k
    } else {
        prefix_index(ps, p + 1, k) / (radix(ps[p]) as int)
    }
}

/// The digit of the `j`-th piece in the name with number `k`.
pub open spec fn digit_of(ps: Seq<Part>, j: int, k: int) -> int {
    prefix_index(ps, j + 1, k) % (radix(ps[j]) as int)
}

/// The texts of the strings, in order.
pub open spec fn string_views(v: Seq<String>) -> Seq<Seq<char>> {
    Seq::new(v.len(), |i: int| v[i]@)
}

/// The texts joined from the last to the first.
pub open spec fn rev_concat(parts: Seq<Seq<char>>) -> Seq<char>
    decreases parts.len(),
{
    if parts.len() == 0 {
        Seq::empty()
    } else {
        parts.last() + rev_concat(parts.drop_last())
    }
}

/// How a piece is written in an expression.
pub open spec fn part_text(p: Part) -> Seq<char> {
    match p {
        Part::Text(s) => s,
        Part::Numbers(ivs) => range_text(ivs),
    }
}

/// How the pieces are written in an expression, one after the other.
pub open spec fn parts_text(ps: Seq<Part>) -> Seq<char>
    decreases ps.len(),
{
    if ps.len() == 0 {
        Seq::empty()
    } else {
        parts_text(ps.drop_last()) + part_text(ps.last())
    }
}

/// The fault of bounds: a start above its end, or else an end that is the
/// largest 32-bit value.
pub open spec fn pair_error(p: (u32, u32)) -> Option<Error> {
    if p.0 > p.1 {
        Some(Error::InvalidRangeReversed { start: p.0, end: p.1 })
    } else if p.1 == u32::MAX {
        Some(Error::TooLarge(p.1))
    } else {
        None
    }
}

/// The fault of the first bounds at fault, in the order in which they are
/// written.
pub open spec fn first_pair_error(pairs: Seq<(u32, u32)>) -> Option<Error>
    decreases pairs.len(),
{
    if pairs.len() == 0 {
        None
    } else {
        match first_pair_error(pairs.drop_last()) {
            Some(e) => Some(e),
            None => pair_error(pairs.last()),
        }
    }
}

/// The first fault among the bounds of all pieces, in order.
pub open spec fn first_part_error(ps: Seq<Part>) -> Option<Error>
    decreases ps.len(),
{
    if ps.len() == 0 {
        None
    } else {
        match first_part_error(ps.drop_last()) {
            Some(e) => Some(e),
            None => match ps.last() {
                Part::Text(_) => None,
                Part::Numbers(pairs) => first_pair_error(pairs),
            },
        }
    }
}

/// The piece with its bounds brought into canonical form.
pub open spec fn canon_part(p: Part) -> Part {
    match p {
        Part::Text(s) => Part::Text(s),
        Part::Numbers(pairs) => Part::Numbers(canon(pairs)),
    }
}

/// The pieces with their bounds brought into canonical form.
pub open spec fn canon_parts(ps: Seq<Part>) -> Seq<Part> {
    Seq::new(ps.len(), |i: int| canon_part(ps[i]))
}

/// A product that a counter holds is the number of names.
pub proof fn lemma_checked_cardinality(ps: Seq<Part>)
    ensures
        checked_cardinality(ps) matches Some(c) ==> c == cardinality(ps) && c <= usize::MAX,
        cardinality(ps) > usize::MAX ==> checked_cardinality(ps) is None,
        (forall|i: int| 0 <= i < ps.len() ==> radix(#[trigger] ps[i]) >= 1) && cardinality(ps)
            <= usize::MAX ==> checked_cardinality(ps) == Some(cardinality(ps)),
    decreases ps.len(),
{
    if ps.len() > 0 {
        let init = ps.drop_last();
        lemma_checked_cardinality(init);
        if (forall|i: int| 0 <= i < ps.len() ==> radix(#[trigger] ps[i]) >= 1) && cardinality(ps)
            <= usize::MAX {
            assert forall|i: int| 0 <= i < init.len() implies radix(#[trigger] init[i]) >= 1 by {
                assert(init[i] == ps[i]);
            }
            assert(radix(ps[ps.len() - 1]) >= 1);
            let c = cardinality(init);
            let r = radix(ps.last());
            assert(c <= c * r) by (nonlinear_arith)
                requires
                    r >= 1,
                    c >= 0,
            ;
        }
    }
}

/// Where there is a name at all, every piece can take a value.
pub proof fn lemma_radix_positive(ps: Seq<Part>)
    requires
        cardinality(ps) > 0,
    ensures
        forall|i: int| 0 <= i < ps.len() ==> radix(#[trigger] ps[i]) >= 1,
    decreases ps.len(),
{
    if ps.len() > 0 {
        let init = ps.drop_last();
        let c = cardinality(init);
        let r = radix(ps.last());
        assert(c > 0 && r > 0) by (nonlinear_arith)
            requires
                c * r > 0,
                c >= 0,
                r >= 0,
        ;
        lemma_radix_positive(init);
        assert forall|i: int| 0 <= i < ps.len() implies radix(#[trigger] ps[i]) >= 1 by {
            if i < init.len() {
                assert(init[i] == ps[i]);
            }
        }
    }
}

/// Counting one up: the digit goes up by one, or goes back to 0 and carries.
proof fn lemma_count_up(y: int, n: int)
    requires
        0 <= y,
        1 <= n,
    ensures
        0 <= y % n < n,
        0 <= y / n,
        y % n + 1 < n ==> (y + 1) % n == y % n + 1 && (y + 1) / n == y / n,
        y % n + 1 == n ==> (y + 1) % n == 0 && (y + 1) / n == y / n + 1,
{
    lemma_fundamental_div_mod(y, n);
    lemma_mod_bound(y, n);
    lemma_div_pos_is_pos(y, n);
    let q = y / n;
    let m = y % n;
    if m + 1 < n {
        assert(y + 1 == q * n + (m + 1)) by (nonlinear_arith)
            requires
                y == n * q + m,
        ;
        lemma_fundamental_div_mod_converse(y + 1, n, q, m + 1);
    } else {
        assert(y + 1 == (q + 1) * n + 0) by (nonlinear_arith)
            requires
                y == n * q + m,
                m + 1 == n,
        ;
        lemma_fundamental_div_mod_converse(y + 1, n, q + 1, 0);
    }
}

/// One piece of a template: literal text, or a set of numbers.
#[derive(Debug, Clone, Eq, PartialEq, Ord, PartialOrd)]
pub enum Component {
    Static(String),
    Range(Range),
}

impl View for Component {
    type V = Part;

    open spec fn view(&self) -> Part {
        match self {
            Component::Static(s) => Part::Text(s@),
            Component::Range(r) => Part::Numbers(r@),
        }
    }
}

/// The pieces that the components stand for, in order.
pub open spec fn parts(cs: Seq<Component>) -> Seq<Part> {
    Seq::new(cs.len(), |i: int| cs[i]@)
}

/// A set of numbers among the components is well formed.
pub open spec fn comp_wf(c: Component) -> bool {
    c matches Component::Range(r) ==> r.wf()
}

/// No number has been taken from the component yet.
pub open spec fn comp_fresh(c: Component) -> bool {
    c matches Component::Range(r) ==> r.is_fresh()
}

/// The component has given the first `c` of its numbers, the last of them most
/// lately.
pub open spec fn range_given(r: Range, c: int) -> bool {
    &&& 0 <= c <= r.values().len()
    &&& r.remaining() == r.values().skip(c)
    &&& c == 0 ==> r.latest is None
    &&& c > 0 ==> r.latest == Some(r.values()[c - 1])
}

/// The component stands in a name with its `d`-th value.
pub open spec fn comp_at(c: Component, d: int) -> bool {
    c matches Component::Range(r) ==> d >= 0 && range_given(r, d + 1)
}

/// The two components hold the same and stand at the same place.
pub open spec fn same_comp(a: Component, b: Component) -> bool {
    match (a, b) {
        (Component::Static(x), Component::Static(y)) => x@ == y@,
        (Component::Range(x), Component::Range(y)) => x.ranges@ == y.ranges@ && x.latest
            == y.latest,
        _ => false,
    }
}

/// The two templates hold the same and stand at the same place.
pub open spec fn same_elem(a: HostlistElem, b: HostlistElem) -> bool {
    &&& a.len == b.len
    &&& a.components.len() == b.components.len()
    &&& forall|i: int|
        0 <= i < a.components.len() ==> same_comp(#[trigger] a.components[i], b.components[i])
    &&& match (a.latest, b.latest) {
        (Some(x), Some(y)) => x@ == y@,
        (None, None) => true,
        _ => false,
    }
}

/// Templates that hold the same and stand at the same place stand for the same
/// names, and are well formed together.
pub proof fn lemma_same_elem(a: HostlistElem, b: HostlistElem)
    requires
        same_elem(a, b),
    ensures
        a@ == b@,
        a.wf() == b.wf(),
        a.remaining() == b.remaining(),
{
    assert(a@ =~= b@) by {
        assert forall|i: int| 0 <= i < a.components.len() implies a@[i] == b@[i] by {
            assert(same_comp(a.components[i], b.components[i]));
        }
    }
    assert(a.comps_wf() == b.comps_wf()) by {
        if a.comps_wf() {
            assert forall|i: int| 0 <= i < b.components.len() implies comp_wf(
                #[trigger] b.components[i],
            ) by {
                assert(same_comp(a.components[i], b.components[i]));
                assert(comp_wf(a.components[i]));
            }
        }
        if b.comps_wf() {
            assert forall|i: int| 0 <= i < a.components.len() implies comp_wf(
                #[trigger] a.components[i],
            ) by {
                assert(same_comp(a.components[i], b.components[i]));
                assert(comp_wf(b.components[i]));
            }
        }
    }
    assert(a.comps_fresh() == b.comps_fresh()) by {
        if a.comps_fresh() {
            assert forall|i: int| 0 <= i < b.components.len() implies comp_fresh(
                #[trigger] b.components[i],
            ) by {
                assert(same_comp(a.components[i], b.components[i]));
                assert(comp_fresh(a.components[i]));
            }
        }
        if b.comps_fresh() {
            assert forall|i: int| 0 <= i < a.components.len() implies comp_fresh(
                #[trigger] a.components[i],
            ) by {
                assert(same_comp(a.components[i], b.components[i]));
                assert(comp_fresh(b.components[i]));
            }
        }
    }
    let k = a.given() - 1;
    if a.latest is Some {
        let pa = forall|i: int|
            0 <= i < a.components.len() ==> comp_at(#[trigger] a.components[i], digit_of(a@, i, k));
        let pb = forall|i: int|
            0 <= i < b.components.len() ==> comp_at(#[trigger] b.components[i], digit_of(b@, i, k));
        if pa {
            assert forall|i: int| 0 <= i < b.components.len() implies comp_at(
                #[trigger] b.components[i],
                digit_of(b@, i, k),
            ) by {
                assert(same_comp(a.components[i], b.components[i]));
                assert(comp_at(a.components[i], digit_of(a@, i, k)));
            }
        }
        if pb {
            assert forall|i: int| 0 <= i < a.components.len() implies comp_at(
                #[trigger] a.components[i],
                digit_of(a@, i, k),
            ) by {
                assert(same_comp(a.components[i], b.components[i]));
                assert(comp_at(b.components[i], digit_of(b@, i, k)));
            }
        }
        assert(pa == pb);
    }
}

/// What a piece of a template has in common with all templates of its shape: its
/// text, or that it is a set of numbers.
pub enum Shape {
    Text(Seq<char>),
    Slot,
}

/// The shape of a piece.
pub open spec fn shape_of(p: Part) -> Shape {
    match p {
        Part::Text(s) => Shape::Text(s),
        Part::Numbers(_) => Shape::Slot,
    }
}

/// The shapes of the pieces, in order.
pub open spec fn shapes(ps: Seq<Part>) -> Seq<Shape> {
    Seq::new(ps.len(), |i: int| shape_of(ps[i]))
}

/// How many of the shapes are sets of numbers.
pub open spec fn slot_count(s: Seq<Shape>) -> nat
    decreases s.len(),
{
    if s.len() == 0 {
        0
    } else {
        slot_count(s.drop_last()) + if s.last() is Slot {
            1nat
        } else {
            0nat
        }
    }
}

/// One piece of a fingerprint.
#[derive(Debug, Clone, Hash, Eq, PartialEq)]
pub enum FingerprintComponent {
    Static(String),
    RangePlaceholder,
}

impl View for FingerprintComponent {
    type V = Shape;

    open spec fn view(&self) -> Shape {
        match self {
            FingerprintComponent::Static(s) => Shape::Text(s@),
            FingerprintComponent::RangePlaceholder => Shape::Slot,
        }
    }
}

/// What tells templates of one shape from all others: their pieces without the
/// numbers.
#[derive(Debug, Clone, Hash, Eq, PartialEq)]
pub struct Fingerprint {
    pub components: Vec<FingerprintComponent>,
}

impl View for Fingerprint {
    type V = Seq<Shape>;

    open spec fn view(&self) -> Seq<Shape> {
        Seq::new(self.components@.len(), |i: int| self.components@[i]@)
    }
}

impl Fingerprint {
    /// How many sets of numbers the shape has.
    pub fn count_ranges(&self) -> (n: usize)
        ensures
            n == slot_count(self@),
    {
        let mut n: usize = 0;
        let mut i: usize = 0;
        proof {
            assert(self@.take(0) =~= Seq::<Shape>::empty());
        }
        while i < self.components.len()
            invariant
                i <= self.components.len(),
                n <= i,
                n == slot_count(self@.take(i as int)),
            decreases self.components.len() - i,
        {
            proof {
                let next = self@.take(i + 1);
                assert(next.drop_last() =~= self@.take(i as int));
                assert(next.last() == self.components@[i as int]@);
            }
            match &self.components[i] {
                FingerprintComponent::RangePlaceholder => {
                    n = n + 1;
                },
                FingerprintComponent::Static(_) => {},
            }
            i = i + 1;
        }
        proof {
            assert(self@.take(i as int) =~= self@);
        }
        n
    }

    /// Whether the two fingerprints are of one shape.
    pub fn same_as(&self, other: &Fingerprint) -> (b: bool)
        ensures
            b == (self@ == other@),
    {
        if self.components.len() != other.components.len() {
            proof {
                assert(self@.len() != other@.len());
            }
            return false;
        }
        let mut i: usize = 0;
        while i < self.components.len()
            invariant
                i <= self.components.len(),
                self.components.len() == other.components.len(),
                forall|k: int| 0 <= k < i ==> self@[k] == other@[k],
            decreases self.components.len() - i,
        {
            let same = match (&self.components[i], &other.components[i]) {
                (FingerprintComponent::Static(a), FingerprintComponent::Static(b)) => *a == *b,
                (
                    FingerprintComponent::RangePlaceholder,
                    FingerprintComponent::RangePlaceholder,
                ) => true,
                _ => false,
            };
            if !same {
                proof {
                    assert(self@[i as int] != other@[i as int]);
                }
                return false;
            }
            i = i + 1;
        }
        proof {
            assert(self@ =~= other@);
        }
        true
    }
}

/// A template of host names with the place that its walk has reached.
#[derive(Debug, Clone, Eq, PartialEq, Ord, PartialOrd)]
pub struct HostlistElem {
    pub components: Vec<Component>,
    pub latest: Option<String>,
    pub len: usize,
}

impl View for HostlistElem {
    type V = Seq<Part>;

    open spec fn view(&self) -> Seq<Part> {
        parts(self.components@)
    }
}

/// Takes the next digit of one set of numbers. Where a set further right has
/// moved on without going round (`found`), the set stays where it is, or gives
/// its first number if it has given none. Else it moves on, and goes round to its
/// first number when it has given all.
fn step_digit(r: &mut Range, found: bool, Ghost(c): Ghost<int>) -> (res: (u32, bool))
    requires
        old(r).wf(),
        old(r).values().len() >= 1,
        range_given(*old(r), c),
    ensures
        final(r).wf(),
        final(r)@ == old(r)@,
        res.1 == (found || c < old(r).values().len()),
        ({
            let n = old(r).values().len() as int;
            let c2 = if found {
                if c == 0 {
                    1
                } else {
                    c
                }
            } else if c < n {
                c + 1
            } else {
                1
            };
            range_given(*final(r), c2) && res.0 == old(r).values()[c2 - 1]
        }),
{
    let ghost vals = r.values();
    if found {
        match r.latest() {
            Some(v) => (v, true),
            None => {
                let v = r.next().unwrap();
                proof {
                    assert(vals.skip(0) =~= vals);
                    assert(vals.skip(0).drop_first() =~= vals.skip(1));
                }
                (v, true)
            },
        }
    } else {
        match r.next() {
            Some(v) => {
                proof {
                    assert(vals.skip(c).drop_first() =~= vals.skip(c + 1));
                }
                (v, true)
            },
            None => {
                r.reset();
                let v = r.next().unwrap();
                proof {
                    assert(vals.drop_first() =~= vals.skip(1));
                }
                (v, false)
            },
        }
    }
}

/// Takes from one component its part of the next name. `x` is what is left of
/// the number of the next name for the components up to this one, `y` the same
/// of the name before.
fn step_component(
    comp: &mut Component,
    found: bool,
    Ghost(started): Ghost<bool>,
    Ghost(x): Ghost<int>,
    Ghost(y): Ghost<int>,
) -> (res: (String, bool))
    requires
        comp_wf(*old(comp)),
        radix(old(comp)@) >= 1,
        x >= 0,
        started ==> y >= 0 && comp_at(*old(comp), y % (radix(old(comp)@) as int)) && (found ==> x
            == y) && (!found ==> x == y + 1),
        !started ==> x == 0 && comp_fresh(*old(comp)),
    ensures
        final(comp)@ == old(comp)@,
        comp_wf(*final(comp)),
        comp_at(*final(comp), x % (radix(old(comp)@) as int)),
        res.0@ == piece(old(comp)@, x % (radix(old(comp)@) as int)),
        x / (radix(old(comp)@) as int) >= 0,
        started ==> y / (radix(old(comp)@) as int) >= 0,
        started && res.1 ==> x / (radix(old(comp)@) as int) == y / (radix(old(comp)@) as int),
        started && !res.1 ==> x / (radix(old(comp)@) as int) == y / (radix(old(comp)@) as int) + 1,
        !started ==> x / (radix(old(comp)@) as int) == 0,
{
    let ghost r = radix(comp@) as int;
    proof {
        lemma_count_up(x, r);
        if started {
            lemma_count_up(y, r);
        } else {
            lemma_fundamental_div_mod_converse(0, r, 0, 0);
        }
    }
    match comp {
        Component::Static(s) => {
            proof {
                assert(r == 1);
                assert(x / 1 == x && x % 1 == 0);
                assert(y / 1 == y);
            }
            (s.clone(), found)
        },
        Component::Range(range) => {
            let ghost c = if started {
                y % r + 1
            } else {
                0
            };
            proof {
                assert(range.values().skip(0) =~= range.values());
            }
            let (num, moved) = step_digit(range, found, Ghost(c));
            (decimal_string(num), moved)
        },
    }
}

impl HostlistElem {
    /// Every set of numbers among the components is well formed.
    pub open spec fn comps_wf(&self) -> bool {
        forall|i: int| 0 <= i < self.components.len() ==> comp_wf(#[trigger] self.components[i])
    }

    /// No number has been taken from any component.
    pub open spec fn comps_fresh(&self) -> bool {
        forall|i: int|
            0 <= i < self.components.len() ==> comp_fresh(#[trigger] self.components[i])
    }

    /// How many names the walk has given.
    pub open spec fn given(&self) -> int {
        cardinality(self@) - self.len
    }

    /// The counter holds how many names are still to come, and the components
    /// stand where the name given last has left them.
    pub open spec fn wf(&self) -> bool {
        &&& self.comps_wf()
        &&& cardinality(self@) <= usize::MAX
        &&& self.len <= cardinality(self@)
        &&& match self.latest {
            None => self.len == cardinality(self@) && self.comps_fresh(),
            Some(s) => {
                &&& self.len < cardinality(self@)
                &&& s@ == name_at(self@, self.given() - 1)
                &&& forall|i: int|
                    0 <= i < self.components.len() ==> comp_at(
                        #[trigger] self.components[i],
                        digit_of(self@, i, self.given() - 1),
                    )
            },
        }
    }

    /// The names that the walk has still to give, in its order.
    pub open spec fn remaining(&self) -> Seq<Seq<char>> {
        names(self@).skip(self.given())
    }

    /// How many names are still to come.
    pub fn len(&self) -> (n: usize)
        ensures
            n == self.len,
            self.wf() ==> n == self.remaining().len(),
    {
        self.len
    }

    /// Sets the counter to the number of names of the template: the product of
    /// the sizes of its sets. Refused once the walk has begun, and where a counter
    /// cannot hold the product.
    pub fn update_len(&mut self) -> (res: Result<(), Error>)
        requires
            old(self).comps_wf(),
            old(self).latest is None ==> old(self).comps_fresh(),
        ensures
            final(self).components@ == old(self).components@,
            final(self).latest == old(self).latest,
            old(self).latest is Some ==> final(self).len == old(self).len && (res matches Err(
                Error::Internal(m),
            ) && m@ == "update_len called after iteration started"@),
            old(self).latest is None ==> match checked_cardinality(old(self)@) {
                Some(c) => res is Ok && final(self).len == c && final(self).wf(),
                None => res == Err::<(), Error>(Error::HostlistTooLarge) && final(self).len == old(
                    self,
                ).len,
            },
    {
        if self.latest.is_some() {
            return Err(Error::Internal(String::from_str("update_len called after iteration started")));
        }
        let mut len: usize = 1;
        let mut i: usize = 0;
        proof {
            assert(self@.take(0) =~= Seq::<Part>::empty());
        }
        while i < self.components.len()
            invariant
                i <= self.components.len(),
                self.comps_wf(),
                self.comps_fresh(),
                self.latest is None,
                self.latest == old(self).latest,
                self.len == old(self).len,
                self.components@ == old(self).components@,
                checked_cardinality(self@.take(i as int)) == Some(len as nat),
            decreases self.components.len() - i,
        {
            proof {
                let next = self@.take(i + 1);
                assert(next.drop_last() =~= self@.take(i as int));
                assert(next.last() == self.components[i as int]@);
                assert(comp_wf(self.components[i as int]));
                assert(comp_fresh(self.components[i as int]));
            }
            if let Component::Range(r) = &self.components[i] {
                match len.checked_mul(r.len()) {
                    Some(l) => {
                        len = l;
                    },
                    None => {
                        proof {
                            lemma_checked_none(self@, i + 1);
                        }
                        return Err(Error::HostlistTooLarge);
                    },
                }
            } else {
                assert(len * 1 == len);
            }
            i = i + 1;
        }
        proof {
            assert(self@.take(i as int) =~= self@);
            lemma_checked_cardinality(self@);
        }
        self.len = len;
        Ok(())
    }

    /// Builds the next name and moves the components on to it; the name given
    /// last is not touched.
    fn construct_next(&mut self) -> (res: Option<String>)
        requires
            old(self).len > 0 ==> old(self).wf(),
        ensures
            final(self)@ == old(self)@,
            final(self).latest == old(self).latest,
            old(self).len > 0 ==> final(self).comps_wf(),
            old(self).len == 0 ==> res is None && final(self).len == 0 && final(self).components@
                == old(self).components@,
            old(self).len > 0 ==> final(self).len == old(self).len - 1 && (res matches Some(s)
                && s@ == name_at(old(self)@, old(self).given())) && forall|i: int|
                0 <= i < final(self).components.len() ==> comp_at(
                    #[trigger] final(self).components[i],
                    digit_of(old(self)@, i, old(self).given()),
                ),
    {
        if self.len == 0 {
            return None;
        }
        let n = self.components.len();
        let ghost ps = self@;
        let ghost target = self.given();
        let ghost started = self.latest is Some;
        // The parts of the name from the last to the first.
        let mut host_parts: Vec<String> = Vec::new();
        let mut found_next = false;
        let mut p: usize = n;
        proof {
            lemma_radix_positive(ps);
            assert(ps.take(n as int) =~= ps);
            assert(rev_concat(string_views(host_parts@)) =~= Seq::<char>::empty());
            assert(name_at(ps, target) =~= name_at(ps.take(n as int), target) + rev_concat(
                string_views(host_parts@),
            ));
        }
        while p > 0
            invariant
                p <= n,
                self.components.len() == n,
                self@ == ps,
                ps.len() == n,
                self.len == old(self).len,
                self.latest == old(self).latest,
                self.comps_wf(),
                target >= 0,
                started ==> target >= 1,
                forall|i: int| 0 <= i < n ==> radix(#[trigger] ps[i]) >= 1,
                forall|i: int| 0 <= i < p ==> self.components[i] == old(self).components[i],
                forall|i: int|
                    p <= i < n ==> comp_at(#[trigger] self.components[i], digit_of(ps, i, target)),
                started ==> forall|i: int|
                    0 <= i < n ==> comp_at(
                        #[trigger] old(self).components[i],
                        digit_of(ps, i, target - 1),
                    ),
                !started ==> forall|i: int|
                    0 <= i < n ==> comp_fresh(#[trigger] old(self).components[i]),
                started && found_next ==> prefix_index(ps, p as int, target) == prefix_index(
                    ps,
                    p as int,
                    target - 1,
                ),
                started && !found_next ==> prefix_index(ps, p as int, target) == prefix_index(
                    ps,
                    p as int,
                    target - 1,
                ) + 1,
                started ==> prefix_index(ps, p as int, target - 1) >= 0,
                !started ==> prefix_index(ps, p as int, target) == 0,
                prefix_index(ps, p as int, target) >= 0,
                host_parts.len() == n - p,
                name_at(ps, target) == name_at(ps.take(p as int), prefix_index(ps, p as int, target))
                    + rev_concat(string_views(host_parts@)),
            decreases p,
        {
            p = p - 1;
            let ghost x = prefix_index(ps, p + 1, target);
            let ghost y = prefix_index(ps, p + 1, target - 1);
            let ghost r = radix(ps[p as int]) as int;
            let ghost comps_before = self.components@;
            let ghost views_before = string_views(host_parts@);
            proof {
                assert(radix(ps[p as int]) >= 1);
                assert(prefix_index(ps, p as int, target) == x / r);
                assert(prefix_index(ps, p as int, target - 1) == y / r);
                assert(digit_of(ps, p as int, target) == x % r);
                assert(digit_of(ps, p as int, target - 1) == y % r);
                assert(self.components[p as int] == old(self).components[p as int]);
                assert(comp_wf(self.components[p as int]));
                assert(ps[p as int] == self.components[p as int]@);
                if started {
                    assert(comp_at(old(self).components[p as int], y % r));
                } else {
                    assert(comp_fresh(old(self).components[p as int]));
                }
            }
            let (part, moved) = step_component(
                &mut self.components[p],
                found_next,
                Ghost(started),
                Ghost(x),
                Ghost(y),
            );
            found_next = moved;
            proof {
                assert(self.components@.len() == n);
                assert forall|i: int| 0 <= i < n && i != p implies #[trigger] self.components[i]
                    == comps_before[i] by {}
                assert(self.components[p as int]@ == ps[p as int]);
                assert(self@ =~= ps);
                assert(self.comps_wf()) by {
                    assert forall|i: int| 0 <= i < n implies comp_wf(
                        #[trigger] self.components[i],
                    ) by {
                        if i != p {
                            assert(self.components[i] == comps_before[i]);
                        }
                    }
                }
                let t = ps.take(p + 1);
                assert(t.drop_last() =~= ps.take(p as int));
                assert(t.last() == ps[p as int]);
                assert(name_at(t, x) == name_at(ps.take(p as int), x / r) + piece(ps[p as int], x % r));
            }
            host_parts.push(part);
            proof {
                let views = string_views(host_parts@);
                assert(views.last() == part@);
                assert(views.drop_last() =~= views_before);
                assert(rev_concat(views) == part@ + rev_concat(views_before));
                assert(name_at(ps, target) =~= name_at(ps.take(p as int), x / r) + rev_concat(views));
            }
        }
        let mut host = String::new();
        let mut q: usize = host_parts.len();
        proof {
            assert(ps.take(0) =~= Seq::<Part>::empty());
            assert(host@ + rev_concat(string_views(host_parts@).take(q as int)) =~= name_at(
                ps,
                target,
            )) by {
                assert(string_views(host_parts@).take(q as int) =~= string_views(host_parts@));
            }
        }
        while q > 0
            invariant
                q <= host_parts.len(),
                host@ + rev_concat(string_views(host_parts@).take(q as int)) == name_at(ps, target),
            decreases q,
        {
            q = q - 1;
            proof {
                let views = string_views(host_parts@);
                let t = views.take(q + 1);
                assert(t.drop_last() =~= views.take(q as int));
                assert(t.last() == host_parts[q as int]@);
            }
            let ghost before = host@;
            host.append(host_parts[q].as_str());
            proof {
                let views = string_views(host_parts@);
                assert(host@ + rev_concat(views.take(q as int)) =~= before + rev_concat(
                    views.take(q + 1),
                ));
            }
        }
        proof {
            assert(string_views(host_parts@).take(0) =~= Seq::<Seq<char>>::empty());
            assert(host@ =~= name_at(ps, target));
        }
        self.len = self.len - 1;
        Some(host)
    }

    /// Gives the next name of the template. The set of numbers furthest to the
    /// right moves on with every name; a set that has gone round starts again and
    /// moves the one before it. `None`, with nothing changed, once the counter of
    /// the names still to come is at zero, whatever has become of the components
    /// since.
    pub fn next(&mut self) -> (res: Option<String>)
        requires
            old(self).len > 0 ==> old(self).wf(),
        ensures
            old(self).wf() ==> final(self).wf(),
            final(self)@ == old(self)@,
            old(self).len == 0 ==> res is None && final(self).len == 0 && final(self).components@
                == old(self).components@ && final(self).latest == old(self).latest,
            old(self).len > 0 ==> final(self).len == old(self).len - 1 && (res matches Some(s)
                && s@ == old(self).remaining()[0]) && final(self).remaining() == old(
                self,
            ).remaining().drop_first(),
    {
        let next = self.construct_next();
        match &next {
            Some(s) => {
                self.latest = Some(s.clone());
                proof {
                    assert(self.remaining() =~= old(self).remaining().drop_first());
                }
            },
            None => {},
        }
        next
    }

    /// Makes a template of the tokens of one entry of an expression. Each bracket
    /// group becomes the set of the numbers of its ranges.
    pub fn new(tokens: &Vec<Token>) -> (res: Result<HostlistElem, Error>)
        ensures
            match first_part_error(token_parts(tokens@)) {
                Some(e) => res == Err::<HostlistElem, Error>(e),
                None => match checked_cardinality(canon_parts(token_parts(tokens@))) {
                    Some(c) => res matches Ok(elem) && elem@ == canon_parts(token_parts(tokens@))
                        && elem.wf() && elem.latest is None && elem.len == c && (is_read_entry(
                        token_parts(tokens@),
                    ) ==> is_canonical_entry(elem@)),
                    None => res == Err::<HostlistElem, Error>(Error::HostlistTooLarge),
                },
            },
    {
        let ghost tps = token_parts(tokens@);
        let mut components: Vec<Component> = Vec::new();
        let mut i: usize = 0;
        proof {
            assert(tps.take(0) =~= Seq::<Part>::empty());
        }
        while i < tokens.len()
            invariant
                i <= tokens.len(),
                tps == token_parts(tokens@),
                components.len() == i,
                first_part_error(tps.take(i as int)) is None,
                forall|k: int|
                    0 <= k < i ==> (#[trigger] components[k])@ == canon_part(tps[k]) && comp_wf(
                        components[k],
                    ) && comp_fresh(components[k]) && (is_read_part(tps[k]) ==> is_canonical_part(
                        components[k]@,
                    )),
            decreases tokens.len() - i,
        {
            proof {
                let next = tps.take(i + 1);
                assert(next.drop_last() =~= tps.take(i as int));
                assert(next.last() == tokens[i as int]@);
            }
            match &tokens[i] {
                Token::Static(s) => {
                    components.push(Component::Static(s.clone()));
                },
                Token::Range(pairs) => {
                    let mut range = Range::new();
                    let mut j: usize = 0;
                    proof {
                        assert(pairs@.take(0) =~= Seq::<(u32, u32)>::empty());
                        assert(cover_set(pairs@.take(0)) =~= Set::<int>::empty());
                        assert(range.set() =~= Set::<int>::empty());
                        assert(range.remaining() =~= range.values());
                    }
                    while j < pairs.len()
                        invariant
                            j <= pairs.len(),
                            range.wf(),
                            range.is_fresh(),
                            range.set() == cover_set(pairs@.take(j as int)),
                            first_pair_error(pairs@.take(j as int)) is None,
                            i < tokens.len(),
                            tps == token_parts(tokens@),
                            tokens[i as int]@ == Part::Numbers(pairs@),
                            first_part_error(tps.take(i as int)) is None,
                        decreases pairs.len() - j,
                    {
                        let (start, end) = pairs[j];
                        proof {
                            let next = pairs@.take(j + 1);
                            assert(next.drop_last() =~= pairs@.take(j as int));
                            assert(next.last() == pairs@[j as int]);
                            lemma_covers_push(pairs@.take(j as int), pairs@[j as int]);
                            assert(next =~= pairs@.take(j as int).push(pairs@[j as int]));
                        }
                        match SimpleRange::new(start, end) {
                            Ok(simple) => {
                                match range.add_range(&simple) {
                                    Ok(_) => {},
                                    Err(e) => {
                                        return Err(e);
                                    },
                                }
                            },
                            Err(e) => {
                                proof {
                                    lemma_pair_error_stays(pairs@, j + 1);
                                    let next = tps.take(i + 1);
                                    assert(next.drop_last() =~= tps.take(i as int));
                                    lemma_part_error_stays(tps, i + 1);
                                }
                                return Err(e);
                            },
                        }
                        j = j + 1;
                    }
                    proof {
                        assert(pairs@.take(j as int) =~= pairs@);
                        lemma_canon_is(range@, pairs@);
                        if pairs@.len() > 0 {
                            // the set holds the numbers of the first range at least
                            lemma_pair_error_stays_none(pairs@, 1);
                            assert(pairs@.take(1).drop_last() =~= Seq::<(u32, u32)>::empty());
                            assert(pairs@.take(1).last() == pairs@[0]);
                            assert(pairs@[0].0 <= pairs@[0].0 <= pairs@[0].1);
                            assert(cover_set(pairs@).contains(pairs@[0].0 as int));
                            assert(range.set().contains(pairs@[0].0 as int));
                        }
                    }
                    components.push(Component::Range(range));
                },
            }
            i = i + 1;
        }
        let mut elem = HostlistElem { components, latest: None, len: 0 };
        proof {
            assert(tps.take(i as int) =~= tps);
            assert(elem@ =~= canon_parts(tps));
            if is_read_entry(tps) {
                assert forall|k: int| 0 <= k < elem@.len() implies is_canonical_part(
                    #[trigger] elem@[k],
                ) by {
                    assert(is_read_part(tps[k]));
                    assert(elem.components[k]@ == canon_part(tps[k]));
                }
                assert forall|k: int| 0 <= k < elem@.len() - 1 implies !((#[trigger] elem@[k]) is Text
                    && elem@[k + 1] is Text) by {
                    assert(!(tps[k] is Text && tps[k + 1] is Text));
                }
                assert(elem@[0] is Text);
            }
        }
        match elem.update_len() {
            Ok(_) => Ok(elem),
            Err(e) => Err(e),
        }
    }

    /// A copy of the template that stands where this one stands.
    pub fn duplicate(&self) -> (r: HostlistElem)
        ensures
            same_elem(r, *self),
    {
        let mut components: Vec<Component> = Vec::new();
        let mut i: usize = 0;
        while i < self.components.len()
            invariant
                i <= self.components.len(),
                components.len() == i,
                forall|k: int|
                    0 <= k < i ==> same_comp(#[trigger] components[k], self.components[k]),
            decreases self.components.len() - i,
        {
            let c = match &self.components[i] {
                Component::Static(s) => Component::Static(s.clone()),
                Component::Range(r) => Component::Range(r.duplicate()),
            };
            components.push(c);
            i = i + 1;
        }
        let latest = match &self.latest {
            Some(s) => Some(s.clone()),
            None => None,
        };
        HostlistElem { components, latest, len: self.len }
    }

    /// The shape of the template.
    pub fn fingerprint(&self) -> (f: Fingerprint)
        ensures
            f@ == shapes(self@),
    {
        let mut components: Vec<FingerprintComponent> = Vec::new();
        let mut i: usize = 0;
        while i < self.components.len()
            invariant
                i <= self.components.len(),
                components.len() == i,
                forall|k: int| 0 <= k < i ==> (#[trigger] components[k])@ == shape_of(self@[k]),
            decreases self.components.len() - i,
        {
            let c = match &self.components[i] {
                Component::Static(s) => FingerprintComponent::Static(s.clone()),
                Component::Range(_) => FingerprintComponent::RangePlaceholder,
            };
            components.push(c);
            i = i + 1;
        }
        let f = Fingerprint { components };
        proof {
            assert(f@ =~= shapes(self@));
        }
        f
    }

    /// Appends the template, as it is written in an expression, to `out`.
    pub fn push_text(&self, out: &mut String)
        ensures
            final(out)@ == old(out)@ + parts_text(self@),
    {
        let mut i: usize = 0;
        proof {
            assert(self@.take(0) =~= Seq::<Part>::empty());
            assert(out@ =~= old(out)@ + parts_text(self@.take(0)));
        }
        while i < self.components.len()
            invariant
                i <= self.components.len(),
                out@ == old(out)@ + parts_text(self@.take(i as int)),
            decreases self.components.len() - i,
        {
            let ghost before = out@;
            match &self.components[i] {
                Component::Static(s) => {
                    out.append(s.as_str());
                },
                Component::Range(r) => {
                    r.push_text(out);
                },
            }
            proof {
                let next = self@.take(i + 1);
                assert(next.drop_last() =~= self@.take(i as int));
                assert(next.last() == self.components[i as int]@);
                assert(out@ == before + part_text(self.components[i as int]@));
                assert(out@ =~= old(out)@ + parts_text(next));
            }
            i = i + 1;
        }
        proof {
            assert(self@.take(i as int) =~= self@);
        }
    }

    /// The template as it is written in an expression.
    pub fn to_string(&self) -> (s: String)
        ensures
            s@ == parts_text(self@),
    {
        let mut s = String::new();
        self.push_text(&mut s);
        assert(s@ =~= parts_text(self@));
        s
    }
}

/// Where no bounds are at fault, none of the first are.
proof fn lemma_pair_error_stays_none(pairs: Seq<(u32, u32)>, n: int)
    requires
        0 <= n <= pairs.len(),
        first_pair_error(pairs) is None,
    ensures
        first_pair_error(pairs.take(n)) is None,
{
    if first_pair_error(pairs.take(n)) is Some {
        lemma_pair_error_stays(pairs, n);
    }
}

/// A fault among the first bounds is the first fault among all of them.
proof fn lemma_pair_error_stays(pairs: Seq<(u32, u32)>, n: int)
    requires
        0 <= n <= pairs.len(),
        first_pair_error(pairs.take(n)) is Some,
    ensures
        first_pair_error(pairs) == first_pair_error(pairs.take(n)),
    decreases pairs.len() - n,
{
    if n < pairs.len() {
        assert(pairs.take(n + 1).drop_last() =~= pairs.take(n));
        lemma_pair_error_stays(pairs, n + 1);
    } else {
        assert(pairs.take(n) =~= pairs);
    }
}

/// A fault among the first pieces is the first fault among all of them.
proof fn lemma_part_error_stays(ps: Seq<Part>, n: int)
    requires
        0 <= n <= ps.len(),
        first_part_error(ps.take(n)) is Some,
    ensures
        first_part_error(ps) == first_part_error(ps.take(n)),
    decreases ps.len() - n,
{
    if n < ps.len() {
        assert(ps.take(n + 1).drop_last() =~= ps.take(n));
        lemma_part_error_stays(ps, n + 1);
    } else {
        assert(ps.take(n) =~= ps);
    }
}

/// A product that is too large up to one piece is too large for all of them.
proof fn lemma_checked_none(ps: Seq<Part>, n: int)
    requires
        0 <= n <= ps.len(),
        checked_cardinality(ps.take(n)) is None,
    ensures
        checked_cardinality(ps) is None,
    decreases ps.len() - n,
{
    if n < ps.len() {
        assert(ps.take(n + 1).drop_last() =~= ps.take(n));
        lemma_checked_none(ps, n + 1);
    } else {
        assert(ps.take(n) =~= ps);
    }
}

} // verus!
