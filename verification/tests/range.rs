use hostlist_iter::range::Range;
use hostlist_iter::simplerange::SimpleRange;
use hostlist_iter::Error;

fn bounds(range: &Range) -> Vec<(u32, u32)> {
    range.ranges.iter().map(|r| (r.start, r.end)).collect()
}

fn drain(range: &mut Range) -> Vec<u32> {
    let mut out = Vec::new();
    while let Some(v) = range.next() {
        out.push(v);
    }
    out
}

#[test]
fn test_range_1() -> Result<(), Error> {
    let mut range = Range::new();
    assert_eq!(range.len(), 0);

    let _ = range.add_range(&SimpleRange::new(1, 5)?);
    let _ = range.add_range(&SimpleRange::new(2, 4)?);
    let _ = range.add_range(&SimpleRange::new(3, 7)?);
    assert_eq!(range.len(), 7);

    for i in 1..=7 {
        assert_eq!(range.next(), Some(i));
    }
    assert_eq!(range.next(), None);
    assert_eq!(range.len(), 0);

    Ok(())
}

#[test]
fn test_range_iter() -> Result<(), Error> {
    let mut range = Range::new();
    assert_eq!(range.len(), 0);

    let _ = range.add_range(&SimpleRange::new(1, 5)?);
    let _ = range.add_range(&SimpleRange::new(2, 4)?);
    let _ = range.add_range(&SimpleRange::new(3, 7)?);
    assert_eq!(range.len(), 7);

    let expected = 1..=7;
    let expected: Vec<u32> = expected.collect();
    let mut it = range.iter();
    let mut i = 0;
    while let Some(elem) = it.next() {
        assert_eq!(expected[i], elem);
        i += 1;
    }
    assert_eq!(i, 7);
    let mut it = range.iter();
    let mut i = 0;
    while let Some(elem) = it.next() {
        assert_eq!(expected[i], elem);
        i += 1;
    }
    assert_eq!(i, 7);

    assert_eq!(range.len(), 7);

    Ok(())
}

#[test]
fn test_range_len_limits() -> Result<(), Error> {
    let mut range = Range::new();

    range.add_range(&SimpleRange::new(0, 0)?).unwrap();
    assert_eq!(range.len(), 1);
    range.add_range(&SimpleRange::new(1, 1)?).unwrap();
    assert_eq!(range.len(), 2);
    range
        .add_range(&SimpleRange::new(2, u32::MAX - 1)?)
        .unwrap();

    assert_eq!(range.len(), u32::MAX as usize);

    let mut range = Range::new();

    range
        .add_range(&SimpleRange::new(0, u32::MAX - 1)?)
        .unwrap();
    range
        .add_range(&SimpleRange::new(0, u32::MAX - 1)?)
        .unwrap();

    assert_eq!(range.len(), u32::MAX as usize);

    Ok(())
}

#[test]
fn range_stays_sorted_apart_and_condensed() {
    let mut range = Range::new();
    let pairs = [(10, 12), (1, 2), (20, 30), (3, 3), (13, 13), (25, 40), (0, 0), (5, 6)];
    for (lo, hi) in pairs {
        range.add_range(&SimpleRange::new(lo, hi).unwrap()).unwrap();
        let b = bounds(&range);
        for w in b.windows(2) {
            // ascending, and at least one number left out between two ranges
            assert!(w[0].1 + 1 < w[1].0);
        }
        for (lo, hi) in b {
            assert!(lo <= hi);
        }
    }
    assert_eq!(bounds(&range), vec![(0, 3), (5, 6), (10, 13), (20, 40)]);
    assert_eq!(range.to_string(), "[0-3,5-6,10-13,20-40]");
}

#[test]
fn range_len_is_size_of_union() {
    let mut range = Range::new();
    let pairs = [(1, 5), (2, 4), (3, 7)];
    let mut members = std::collections::BTreeSet::new();
    for (lo, hi) in pairs {
        range.add_range(&SimpleRange::new(lo, hi).unwrap()).unwrap();
        for v in lo..=hi {
            members.insert(v);
        }
        assert_eq!(range.len(), members.len());
    }
    assert_eq!(range.len(), 7);
    assert_eq!(bounds(&range), vec![(1, 7)]);
    let expected: Vec<u32> = members.into_iter().collect();
    assert_eq!(drain(&mut range), expected);
}

#[test]
fn range_add_splits_around_stored_ranges() {
    // the new range reaches over two stored ranges: three pieces are left of it
    let mut range = Range::new();
    range.add_range(&SimpleRange::new(5, 6).unwrap()).unwrap();
    range.add_range(&SimpleRange::new(2, 3).unwrap()).unwrap();
    assert_eq!(bounds(&range), vec![(2, 3), (5, 6)]);
    range.add_range(&SimpleRange::new(1, 10).unwrap()).unwrap();
    assert_eq!(bounds(&range), vec![(1, 10)]);
    assert_eq!(range.len(), 10);

    // overlap on the left, on the right, and a range the set holds already
    let mut range = Range::new();
    range.add_range(&SimpleRange::new(10, 20).unwrap()).unwrap();
    range.add_range(&SimpleRange::new(5, 12).unwrap()).unwrap();
    assert_eq!(bounds(&range), vec![(5, 20)]);
    range.add_range(&SimpleRange::new(18, 25).unwrap()).unwrap();
    assert_eq!(bounds(&range), vec![(5, 25)]);
    range.add_range(&SimpleRange::new(7, 9).unwrap()).unwrap();
    assert_eq!(bounds(&range), vec![(5, 25)]);
    range.add_range(&SimpleRange::new(27, 30).unwrap()).unwrap();
    assert_eq!(bounds(&range), vec![(5, 25), (27, 30)]);
    range.add_range(&SimpleRange::new(26, 26).unwrap()).unwrap();
    assert_eq!(bounds(&range), vec![(5, 30)]);
}

#[test]
fn range_merge_is_commutative_and_idempotent() {
    let mut a = Range::new();
    a.add_range(&SimpleRange::new(1, 3).unwrap()).unwrap();
    a.add_range(&SimpleRange::new(10, 12).unwrap()).unwrap();
    let mut b = Range::new();
    b.add_range(&SimpleRange::new(2, 5).unwrap()).unwrap();
    b.add_range(&SimpleRange::new(13, 13).unwrap()).unwrap();
    b.add_range(&SimpleRange::new(20, 21).unwrap()).unwrap();

    let mut ab = a.duplicate();
    ab.merge(&b).unwrap();
    let mut ba = b.duplicate();
    ba.merge(&a).unwrap();
    assert_eq!(bounds(&ab), vec![(1, 5), (10, 13), (20, 21)]);
    assert_eq!(bounds(&ab), bounds(&ba));

    let again = ab.duplicate();
    ab.merge(&again).unwrap();
    assert_eq!(bounds(&ab), bounds(&again));
    ab.merge(&Range::new()).unwrap();
    assert_eq!(bounds(&ab), bounds(&again));
}

#[test]
fn range_reset_and_latest() {
    let mut range = Range::new();
    assert_eq!(range.latest(), None);
    assert_eq!(range.to_string(), "[]");
    range.add_range(&SimpleRange::new(4, 5).unwrap()).unwrap();
    range.add_range(&SimpleRange::new(8, 8).unwrap()).unwrap();
    assert_eq!(range.next(), Some(4));
    assert_eq!(range.latest(), Some(4));
    assert_eq!(range.next(), Some(5));
    assert_eq!(range.next(), Some(8));
    assert_eq!(range.latest(), Some(8));
    assert_eq!(range.next(), None);
    assert_eq!(range.latest(), Some(8));
    assert_eq!(range.len(), 0);
    range.reset();
    assert_eq!(range.len(), 3);
    assert_eq!(range.latest(), Some(8));
    assert_eq!(drain(&mut range), vec![4, 5, 8]);
    // a copy by `iter` remembers no latest number
    assert_eq!(range.iter().latest(), None);
}
