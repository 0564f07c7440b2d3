use hostlist_iter::simplerange::SimpleRange;
use hostlist_iter::Error;

#[test]
fn test_simplerange_len() {
    let range = SimpleRange::new(1, 1_000_000_000).unwrap();
    assert_eq!(range.len(), 1_000_000_000);
}

#[test]
fn test_simplerange_len_limits() -> Result<(), Error> {
    let toolarge = SimpleRange::new(0, u32::MAX);
    assert!(matches!(toolarge, Err(Error::TooLarge(_))));

    let range = SimpleRange::new(0, u32::MAX - 1)?;
    assert_eq!(range.len(), u32::MAX as usize);

    Ok(())
}

#[test]
fn test_simplerange_iterator() {
    let mut expected = vec![1, 2, 3, 4, 5];

    let mut simplerange = SimpleRange::new(1, 5).unwrap();
    while let Some(elem) = simplerange.next() {
        let e = expected.remove(0);
        assert_eq!(e, elem);
    }

    let mut simplerange = SimpleRange::new(1, 5).unwrap();
    assert_eq!(simplerange.next(), Some(1));
    assert_eq!(simplerange.next(), Some(2));
    assert_eq!(simplerange.next(), Some(3));
    assert_eq!(simplerange.next(), Some(4));
    assert_eq!(simplerange.next(), Some(5));
    assert_eq!(simplerange.next(), None);
    assert_eq!(simplerange.len(), 0);
    simplerange.reset();
    assert_eq!(simplerange.len(), 5);
    assert_eq!(simplerange.next(), Some(1));
    assert_eq!(simplerange.len(), 4);
}

#[test]
fn test_simplerange_iter() {
    let expected_orig = vec![1, 2, 3, 4, 5];
    let simplerange = SimpleRange::new(1, 5).unwrap();

    let mut expected = expected_orig.clone();
    let mut it = simplerange.into_iter();
    while let Some(elem) = it.next() {
        let e = expected.remove(0);
        assert_eq!(e, elem);
    }
    assert!(expected.is_empty());

    let mut expected = expected_orig.clone();
    let mut it = simplerange.into_iter();
    while let Some(elem) = it.next() {
        let e = expected.remove(0);
        assert_eq!(e, elem);
    }
    assert!(expected.is_empty());

    let expected = expected_orig;
    let mut elems: Vec<u32> = Vec::new();
    let mut it = simplerange.iter();
    while let Some(elem) = it.next() {
        elems.push(elem);
    }
    assert_eq!(expected, elems);
}

#[test]
fn test_simplerange_intoiter() {
    let expected_orig = vec![1, 2, 3, 4, 5];
    let mut simplerange = SimpleRange::new(1, 5).unwrap();

    let mut expected = expected_orig.clone();
    let mut it = simplerange.into_iter();
    while let Some(elem) = it.next() {
        let e = expected.remove(0);
        assert_eq!(e, elem);
    }
    assert!(expected.is_empty());

    let mut expected = expected_orig.clone();
    let mut it = simplerange.into_iter();
    while let Some(elem) = it.next() {
        let e = expected.remove(0);
        assert_eq!(e, elem);
    }
    assert!(expected.is_empty());

    let mut expected = expected_orig;
    while let Some(elem) = simplerange.next() {
        let e = expected.remove(0);
        assert_eq!(e, elem);
    }
    assert!(expected.is_empty());
}

#[test]
fn test_simplerange_exactsizeiterator() {
    // The walk that `iter` hands out knows exactly how much is left of it.
    let simplerange = SimpleRange::new(1, 1).unwrap();

    let mut it = simplerange.iter();
    assert_eq!(it.len(), 1);
    assert_eq!(it.size_hint(), (1, Some(1)));
    assert_eq!(it.next(), Some(1));
    assert_eq!(it.len(), 0);
    assert_eq!(it.size_hint(), (0, Some(0)));
    assert_eq!(it.next(), None);
    assert_eq!(it.next(), None);
}

#[test]
fn simplerange_reversed_bounds_are_refused() {
    let reversed = SimpleRange::new(5, 1);
    assert!(matches!(
        reversed,
        Err(Error::InvalidRangeReversed { start: 5, end: 1 })
    ));
    // the order of the bounds is looked at first
    let both = SimpleRange::new(u32::MAX, 0);
    assert!(matches!(
        both,
        Err(Error::InvalidRangeReversed { start: 4_294_967_295, end: 0 })
    ));
}

#[test]
fn simplerange_single_value() {
    let mut range = SimpleRange::new(7, 7).unwrap();
    assert_eq!(range.len(), 1);
    assert_eq!(range.to_string(), "7");
    assert_eq!(range.next(), Some(7));
    assert_eq!(range.next(), None);
    assert_eq!(range.next(), None);
    assert_eq!(range.len(), 0);
}

#[test]
fn simplerange_text() {
    assert_eq!(SimpleRange::new(0, 0).unwrap().to_string(), "0");
    assert_eq!(SimpleRange::new(4, 6).unwrap().to_string(), "4-6");
    assert_eq!(
        SimpleRange::new(10, 4_294_967_294).unwrap().to_string(),
        "10-4294967294"
    );
}

#[test]
fn simplerange_iter_leaves_cursor_alone() {
    let mut range = SimpleRange::new(3, 6).unwrap();
    assert_eq!(range.next(), Some(3));
    assert_eq!(range.next(), Some(4));
    let mut it = range.iter();
    assert_eq!(it.len(), 4);
    assert_eq!(it.next(), Some(3));
    assert_eq!(range.len(), 2);
    assert_eq!(range.next(), Some(5));
    let copy = range.duplicate();
    assert_eq!(copy.len(), 1);
}
