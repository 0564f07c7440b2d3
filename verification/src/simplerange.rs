//! A single inclusive range of numbers with a cursor that walks through it.

use vstd::prelude::*;
use vstd::string::*;
use crate::error::Error;
use crate::text::{decimal, push_decimal};

verus! {

/// The numbers `lo, lo + 1, ..., hi` in ascending order; empty when `hi < lo`.
pub open spec fn interval_seq(lo: int, hi: int) -> Seq<u32> {
    Seq::new(
        (if hi >= lo {
            hi - lo + 1
        } else {
            0
        }) as nat,
        |i: int| (lo + i) as u32,
    )
}

/// How the range `lo..=hi` is written: the one number where the bounds are
/// equal, else the two bounds with a hyphen between them.
pub open spec fn interval_text(lo: u32, hi: u32) -> Seq<char> {
    if lo == hi {
        decimal(lo as nat)
    } else {
        decimal(lo as nat) + seq!['-'] + decimal(hi as nat)
    }
}

/// Appends the writing of the range `lo..=hi` to `out`.
pub fn push_interval(out: &mut String, lo: u32, hi: u32)
    ensures
        final(out)@ == old(out)@ + interval_text(lo, hi),
{
    push_decimal(out, lo);
    if lo != hi {
        proof {
            reveal_strlit("-");
        }
        out.append("-");
        push_decimal(out, hi);
        assert(out@ =~= old(out)@ + interval_text(lo, hi));
    }
}

/// A range `start..=end` with `start <= end`, and the place its walk has reached.
#[derive(Debug, Clone, Eq, Ord, PartialEq, PartialOrd)]
pub struct SimpleRange {
    pub start: u32,
    pub end: u32,
    pub current: Option<u32>,
}

impl SimpleRange {
    /// The bounds are in order, the end is below the largest 32-bit value, and the
    /// cursor lies within the bounds.
    pub open spec fn wf(&self) -> bool {
        &&& self.start <= self.end < u32::MAX
        &&& self.current matches Some(c) ==> self.start <= c <= self.end
    }

    /// All numbers of the range, ascending.
    pub open spec fn values(&self) -> Seq<u32> {
        interval_seq(self.start as int, self.end as int)
    }

    /// The numbers the walk has not given yet, ascending.
    pub open spec fn remaining(&self) -> Seq<u32> {
        match self.current {
            Some(c) => interval_seq(c as int, self.end as int),
            None => Seq::empty(),
        }
    }

    /// Whether the walk stands at the start of the range.
    pub open spec fn is_fresh(&self) -> bool {
        self.current == Some(self.start)
    }

    /// Makes the range `start..=end`, with the walk at `start`.
    pub fn new(start: u32, end: u32) -> (res: Result<SimpleRange, Error>)
        ensures
            start > end ==> res == Err::<SimpleRange, Error>(
                Error::InvalidRangeReversed { start, end },
            ),
            start <= end && end == u32::MAX ==> res == Err::<SimpleRange, Error>(
                Error::TooLarge(end),
            ),
            start <= end < u32::MAX ==> (res matches Ok(r) && r.start == start && r.end == end
                && r.is_fresh() && r.wf()),
    {
        if start > end {
            return Err(Error::InvalidRangeReversed { start, end });
        }
        if end == u32::MAX {
            return Err(Error::TooLarge(end));
        }
        Ok(SimpleRange { start, end, current: Some(start) })
    }

    /// Puts the walk back at the start of the range.
    pub fn reset(&mut self)
        ensures
            final(self).start == old(self).start,
            final(self).end == old(self).end,
            final(self).is_fresh(),
    {
        self.current = Some(self.start);
    }

    /// How many numbers the walk has still to give.
    pub fn len(&self) -> (n: usize)
        requires
            self.wf(),
        ensures
            n == self.remaining().len(),
    {
        if let Some(current) = self.current {
            (self.end - current + 1) as usize
        } else {
            0
        }
    }

    /// A walk of its own over all numbers of the range, which leaves this one's
    /// cursor where it is.
    pub fn iter(&self) -> (it: SimpleRangeIter)
        ensures
            it.current == self.start,
            it.end == self.end,
            it.remaining() == self.values(),
            self.wf() ==> it.wf(),
    {
        SimpleRangeIter { current: self.start, end: self.end }
    }

    /// The same as `iter`.
    pub fn into_iter(&self) -> (it: SimpleRangeIter)
        ensures
            it.current == self.start,
            it.end == self.end,
            it.remaining() == self.values(),
            self.wf() ==> it.wf(),
    {
        self.iter()
    }

    /// Gives the number under the cursor and moves the cursor on; `None` once the
    /// end has been given.
    pub fn next(&mut self) -> (res: Option<u32>)
        requires
            old(self).wf(),
        ensures
            final(self).wf(),
            final(self).start == old(self).start,
            final(self).end == old(self).end,
            res == old(self).current,
            old(self).remaining().len() == 0 ==> res is None && final(self).current is None,
            old(self).remaining().len() > 0 ==> res == Some(old(self).remaining()[0])
                && final(self).remaining() == old(self).remaining().drop_first(),
    {
        if let Some(current) = self.current {
            self.current = if current == self.end {
                None
            } else {
                Some(current + 1)
            };
            assert(self.remaining() =~= old(self).remaining().drop_first());
            Some(current)
        } else {
            None
        }
    }

    /// Appends the writing of the range to `out`.
    pub fn push_text(&self, out: &mut String)
        ensures
            final(out)@ == old(out)@ + interval_text(self.start, self.end),
    {
        push_interval(out, self.start, self.end);
    }

    /// The writing of the range.
    pub fn to_string(&self) -> (s: String)
        ensures
            s@ == interval_text(self.start, self.end),
    {
        let mut s = String::new();
        self.push_text(&mut s);
        assert(s@ =~= interval_text(self.start, self.end));
        s
    }

    /// A copy of this range with the cursor where this one has it.
    pub fn duplicate(&self) -> (r: SimpleRange)
        ensures
            r == *self,
    {
        SimpleRange { start: self.start, end: self.end, current: self.current }
    }
}

/// A walk over `current..=end` that belongs to no range.
#[derive(Debug)]
pub struct SimpleRangeIter {
    pub current: u32,
    pub end: u32,
}

impl SimpleRangeIter {
    /// The end is below the largest 32-bit value, so that the walk can step past it.
    pub open spec fn wf(&self) -> bool {
        self.end < u32::MAX
    }

    /// The numbers still to come, ascending.
    pub open spec fn remaining(&self) -> Seq<u32> {
        interval_seq(self.current as int, self.end as int)
    }

    /// Gives the next number, or `None` when the walk is past the end.
    pub fn next(&mut self) -> (res: Option<u32>)
        requires
            old(self).wf(),
        ensures
            final(self).wf(),
            final(self).end == old(self).end,
            old(self).remaining().len() == 0 ==> res is None && *final(self) == *old(self),
            old(self).remaining().len() > 0 ==> res == Some(old(self).remaining()[0])
                && final(self).remaining() == old(self).remaining().drop_first(),
    {
        if self.current <= self.end {
            let result = self.current;
            self.current += 1;
            assert(self.remaining() =~= old(self).remaining().drop_first());
            Some(result)
        } else {
            None
        }
    }

    /// How many numbers are still to come, as a lower and an upper bound.
    pub fn size_hint(&self) -> (res: (usize, Option<usize>))
        requires
            self.wf(),
        ensures
            res.0 == self.remaining().len(),
            res.1 == Some(res.0),
    {
        let remaining = self.len();
        (remaining, Some(remaining))
    }

    /// How many numbers are still to come.
    pub fn len(&self) -> (n: usize)
        requires
            self.wf(),
        ensures
            n == self.remaining().len(),
    {
        if self.current <= self.end {
            (self.end - self.current + 1) as usize
        } else {
            0
        }
    }
}

} // verus!
