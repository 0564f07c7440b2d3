use hostlist_iter::hostlistelem::{Component, HostlistElem};
use hostlist_iter::parser::HostlistParser;
use hostlist_iter::token::Token;
use hostlist_iter::Error;

#[test]
fn test_hostlistelem_1() -> Result<(), Error> {
    let entries = HostlistParser::parse_hostlist("n[1-5]")?;
    let mut elems = HostlistElem::new(&entries[0])?;

    assert_eq!(elems.len(), 5);
    for i in 1..=5_u32 {
        assert_eq!(elems.next(), Some(format!("n{i}")));
    }
    assert_eq!(elems.next(), None);
    assert_eq!(elems.len(), 0);

    Ok(())
}

#[test]
fn test_hostlistelem_2() -> Result<(), Error> {
    let entries = HostlistParser::parse_hostlist("n[1-5]m[1-3]")?;
    let mut elems = HostlistElem::new(&entries[0])?;
    assert_eq!(entries.len(), 1);

    assert_eq!(elems.len(), 15);
    for n in 1..=5_u32 {
        for m in 1..=3_u32 {
            let elem = elems.next();
            assert_eq!(elem, Some(format!("n{n}m{m}")));
        }
    }
    assert_eq!(elems.next(), None);
    assert_eq!(elems.len(), 0);

    Ok(())
}

#[test]
fn test_hostlistelem_3() -> Result<(), Error> {
    let entries = HostlistParser::parse_hostlist("n[1-3],foo[5-7]")?;
    let mut hostlist_elem = HostlistElem::new(&entries[0])?;

    assert_eq!(hostlist_elem.len(), 3);
    for n in 1..=3_u32 {
        let elem = hostlist_elem.next();
        assert_eq!(elem, Some(format!("n{n}")));
    }
    assert_eq!(hostlist_elem.len(), 0);

    let mut hostlist_elem = HostlistElem::new(&entries[1])?;
    assert_eq!(hostlist_elem.len(), 3);
    for n in 5..=7_u32 {
        let elem = hostlist_elem.next();
        assert_eq!(elem, Some(format!("foo{n}")));
    }
    assert_eq!(hostlist_elem.len(), 0);

    assert_eq!(hostlist_elem.next(), None);
    assert_eq!(hostlist_elem.len(), 0);

    assert_eq!(entries.len(), 2);

    Ok(())
}

#[test]
fn test_hostlistelem_len_overflow() -> Result<(), Error> {
    let inputs = ["n[1-1000][1-1000][1-1000][1-1000][1-1000][1-1000][1-1000]"];

    for input in inputs {
        let entries = HostlistParser::parse_hostlist(input)?;
        let result = HostlistElem::new(&entries[0]);
        assert!(matches!(result, Err(Error::HostlistTooLarge)));
    }

    Ok(())
}

#[test]
fn hostlistelem_from_tokens() {
    let tokens = vec![
        Token::Static("rack".to_string()),
        Token::Range(vec![(3, 4), (1, 2), (9, 9)]),
        Token::Static("-n".to_string()),
        Token::Range(vec![(7, 8)]),
    ];
    let mut elem = HostlistElem::new(&tokens).unwrap();
    assert_eq!(elem.to_string(), "rack[1-4,9]-n[7-8]");
    assert_eq!(elem.len(), 10);
    let expected = [
        "rack1-n7", "rack1-n8", "rack2-n7", "rack2-n8", "rack3-n7", "rack3-n8", "rack4-n7",
        "rack4-n8", "rack9-n7", "rack9-n8",
    ];
    for (i, e) in expected.iter().enumerate() {
        assert_eq!(elem.len(), expected.len() - i);
        assert_eq!(elem.next(), Some(e.to_string()));
    }
    assert_eq!(elem.next(), None);
    assert_eq!(elem.next(), None);
    assert_eq!(elem.len(), 0);
}

#[test]
fn hostlistelem_first_fault_wins() {
    let tokens = vec![
        Token::Static("n".to_string()),
        Token::Range(vec![(1, 2), (5, 1), (0, u32::MAX)]),
    ];
    assert!(matches!(
        HostlistElem::new(&tokens),
        Err(Error::InvalidRangeReversed { start: 5, end: 1 })
    ));
    let tokens = vec![
        Token::Range(vec![(0, u32::MAX)]),
        Token::Range(vec![(5, 1)]),
    ];
    assert!(matches!(
        HostlistElem::new(&tokens),
        Err(Error::TooLarge(4_294_967_295))
    ));
}

#[test]
fn hostlistelem_without_numbers_has_one_name() {
    let tokens = vec![Token::Static("login".to_string())];
    let mut elem = HostlistElem::new(&tokens).unwrap();
    assert_eq!(elem.len(), 1);
    assert_eq!(elem.next(), Some("login".to_string()));
    assert_eq!(elem.len(), 0);
    assert_eq!(elem.next(), None);

    // no component at all: one name, the empty one
    let mut elem = HostlistElem::new(&Vec::new()).unwrap();
    assert_eq!(elem.len(), 1);
    assert_eq!(elem.next(), Some(String::new()));
    assert_eq!(elem.next(), None);
}

#[test]
fn hostlistelem_empty_set_has_no_name() {
    let tokens = vec![Token::Static("n".to_string()), Token::Range(vec![])];
    let mut elem = HostlistElem::new(&tokens).unwrap();
    assert_eq!(elem.len(), 0);
    assert_eq!(elem.next(), None);
    assert_eq!(elem.to_string(), "n[]");
}

#[test]
fn hostlistelem_update_len_after_start_is_refused() {
    let entries = HostlistParser::parse_hostlist("n[1-3]").unwrap();
    let mut elem = HostlistElem::new(&entries[0]).unwrap();
    assert!(elem.update_len().is_ok());
    assert_eq!(elem.len(), 3);
    assert_eq!(elem.next(), Some("n1".to_string()));
    let res = elem.update_len();
    match res {
        Err(Error::Internal(m)) => assert_eq!(m, "update_len called after iteration started"),
        _ => panic!("update_len must be refused once the walk has begun"),
    }
    assert_eq!(elem.len(), 2);
    assert_eq!(elem.next(), Some("n2".to_string()));
    assert_eq!(elem.next(), Some("n3".to_string()));
    assert_eq!(elem.next(), None);
    // still refused when all names are given
    assert!(matches!(elem.update_len(), Err(Error::Internal(_))));
    assert_eq!(elem.len(), 0);
}

#[test]
fn hostlistelem_fingerprint() {
    let entries = HostlistParser::parse_hostlist("n[1-3]x,n[7,9]x,n[1-3]y,n[1][2]x,nx").unwrap();
    let elems: Vec<HostlistElem> = entries
        .iter()
        .map(|e| HostlistElem::new(e).unwrap())
        .collect();
    let prints: Vec<_> = elems.iter().map(|e| e.fingerprint()).collect();
    assert_eq!(prints[0].count_ranges(), 1);
    assert_eq!(prints[3].count_ranges(), 2);
    assert_eq!(prints[4].count_ranges(), 0);
    assert!(prints[0].same_as(&prints[1]));
    assert!(prints[1].same_as(&prints[0]));
    assert!(!prints[0].same_as(&prints[2]));
    assert!(!prints[0].same_as(&prints[3]));
    assert!(!prints[0].same_as(&prints[4]));
    assert!(prints[4].same_as(&prints[4]));
}

#[test]
fn hostlistelem_duplicate_stands_at_the_same_place() {
    let entries = HostlistParser::parse_hostlist("a[1-2]b[1-2]").unwrap();
    let mut elem = HostlistElem::new(&entries[0]).unwrap();
    assert_eq!(elem.next(), Some("a1b1".to_string()));
    assert_eq!(elem.next(), Some("a1b2".to_string()));
    let mut copy = elem.duplicate();
    assert_eq!(copy.len(), 2);
    assert_eq!(copy.next(), Some("a2b1".to_string()));
    assert_eq!(elem.len(), 2);
    assert_eq!(elem.next(), Some("a2b1".to_string()));
    assert_eq!(elem.next(), Some("a2b2".to_string()));
    assert_eq!(copy.next(), Some("a2b2".to_string()));
    assert_eq!(copy.next(), None);
}

#[test]
fn hostlistelem_stays_exhausted_when_a_set_is_reset() {
    let entries = HostlistParser::parse_hostlist("a[1-2]b[1-2]").unwrap();
    let mut elem = HostlistElem::new(&entries[0]).unwrap();
    for _ in 0..4 {
        assert!(elem.next().is_some());
    }
    assert_eq!(elem.next(), None);
    for component in elem.components.iter_mut() {
        if let Component::Range(range) = component {
            range.reset();
        }
    }
    assert_eq!(elem.len(), 0);
    assert_eq!(elem.next(), None);
    assert_eq!(elem.next(), None);
    assert_eq!(elem.len(), 0);
}
