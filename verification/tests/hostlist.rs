use hostlist_iter::hostlist::compare_elems;
use hostlist_iter::{Error, Hostlist};

fn collect(hostlist: &mut Hostlist) -> Vec<String> {
    let mut out = Vec::new();
    while let Some(host) = hostlist.next() {
        out.push(host);
    }
    out
}

#[test]
fn test_hostlist_len1() {
    let hostlist = Hostlist::new("node[1-1000000000]").unwrap();
    assert_eq!(hostlist.len(), 1_000_000_000);
}

#[test]
fn test_hostlist_len2() {
    let hostlist = Hostlist::new("blah2,node[1-3,2-5],n[11-20],blah").unwrap();
    assert_eq!(hostlist.len(), 17);
}

#[test]
fn test_hostlist_len_overflow() {
    let inputs =
        ["n[1-1000000][1-1000000][1-1000000][1-10],o[1-1000000][1-1000000][1-1000000][1-10]"];

    for input in inputs {
        let result = Hostlist::new(input);
        assert!(matches!(result, Err(Error::HostlistTooLarge)));
    }
}

#[test]
fn test_hostlist_combine_like_prefixes() {
    let mut hostlist = Hostlist::new("node[1-3,2-5],node[2-7]").unwrap();
    let expected = vec![
        "node1", "node2", "node3", "node4", "node5", "node6", "node7",
    ];

    assert_eq!(hostlist.len(), 7);
    for e in expected {
        assert_eq!(hostlist.next(), Some(e.into()));
    }
    assert_eq!(hostlist.len(), 0);
}

#[test]
fn test_hostlist_fromstr() {
    let mut hostlist: Hostlist = "node[1-3]".parse().unwrap();
    let expected = vec!["node1", "node2", "node3"];

    let result: Vec<String> = collect(&mut hostlist);
    assert_eq!(expected, result);
}

#[test]
fn test_hostlist_iter1() {
    let mut hostlist: Hostlist = "n[1-5]".parse().unwrap();
    let expected = ["n1", "n2", "n3", "n4", "n5"];

    for e in expected {
        assert_eq!(hostlist.next(), Some(e.into()));
    }
    assert_eq!(hostlist.next(), None);
    assert_eq!(hostlist.len(), 0);
}

#[test]
fn test_hostlist_iter2() {
    let mut hostlist: Hostlist = "n[1-3]s".parse().unwrap();
    let expected = ["n1s", "n2s", "n3s"];

    for e in expected {
        assert_eq!(hostlist.next(), Some(e.into()));
    }
    assert_eq!(hostlist.next(), None);
    assert_eq!(hostlist.len(), 0);
}

#[test]
fn test_hostlist_iter3() {
    let mut hostlist: Hostlist = "n[1-3]s[1-2]".parse().unwrap();
    let expected = ["n1s1", "n1s2", "n2s1", "n2s2", "n3s1", "n3s2"];

    for e in expected {
        assert_eq!(hostlist.next(), Some(e.into()));
    }
    assert_eq!(hostlist.next(), None);
    assert_eq!(hostlist.len(), 0);
}

#[test]
fn test_hostlist_iter4() -> Result<(), Error> {
    let mut hostlist: Hostlist = "n[1-5]".parse()?;
    let expected_orig = vec!["n2", "n3", "n4", "n5"];

    assert_eq!(hostlist.len(), 5);
    assert_eq!(hostlist.next(), Some("n1".to_string()));
    assert_eq!(hostlist.len(), 4);

    let mut expected = expected_orig.clone();
    let mut it = hostlist.into_iter();
    while let Some(host) = it.next() {
        let e = expected.remove(0);
        assert_eq!(e, host);
    }
    assert!(expected.is_empty());
    assert_eq!(hostlist.len(), 4);

    Ok(())
}

#[test]
fn test_hostlist_iter5() -> Result<(), Error> {
    let mut hostlist: Hostlist = "n[1-5]".parse()?;

    assert_eq!(hostlist.len(), 5);
    assert_eq!(hostlist.next(), Some("n1".to_string()));
    assert_eq!(hostlist.len(), 4);
    assert_eq!(hostlist.next(), Some("n2".to_string()));
    assert_eq!(hostlist.len(), 3);
    assert_eq!(hostlist.next(), Some("n3".to_string()));
    assert_eq!(hostlist.len(), 2);
    assert_eq!(hostlist.next(), Some("n4".to_string()));
    assert_eq!(hostlist.len(), 1);
    assert_eq!(hostlist.next(), Some("n5".to_string()));
    assert_eq!(hostlist.len(), 0);
    assert_eq!(hostlist.next(), None);
    assert_eq!(hostlist.len(), 0);

    let mut hostlist_iter = hostlist.into_iter();
    assert!(hostlist_iter.next().is_none());

    Ok(())
}

#[test]
fn test_hostlist_iter6() -> Result<(), Error> {
    let mut hostlist: Hostlist = "n[1-5]".parse()?;

    assert_eq!(hostlist.len(), 5);
    assert_eq!(hostlist.next(), Some("n1".to_string()));
    assert_eq!(hostlist.len(), 4);
    assert_eq!(hostlist.next(), Some("n2".to_string()));
    assert_eq!(hostlist.len(), 3);
    assert_eq!(hostlist.next(), Some("n3".to_string()));
    assert_eq!(hostlist.len(), 2);
    assert_eq!(hostlist.next(), Some("n4".to_string()));
    assert_eq!(hostlist.len(), 1);

    let expected_orig = vec!["n5"];

    let mut expected = expected_orig.clone();
    let mut it = hostlist.into_iter();
    while let Some(host) = it.next() {
        let e = expected.remove(0);
        assert_eq!(e, host);
    }
    assert!(expected.is_empty());

    // hostlist is unchanged
    assert_eq!(hostlist.len(), 1);

    // and can still be modified
    assert_eq!(hostlist.next(), Some("n5".to_string()));
    assert_eq!(hostlist.len(), 0);
    assert_eq!(hostlist.next(), None);
    assert_eq!(hostlist.len(), 0);

    Ok(())
}

#[test]
fn test_hostlist_invalid() {
    let inputs = [
        ("[1-3]", "no prefix"),
        ("node[1-", "unclosed bracket range"),
        ("node]1-3[", "inverted brackets"),
        ("node[3-1]", "reversed range"),
        ("node[1,]", "trailing comma"),
        ("node[,1]", "leading comma"),
        ("node[1,,3]", "double comma"),
        ("node[1-3", "missing closing bracket"),
        ("node1-3]", "missing opening bracket"),
        ("node[a-3]", "non-numeric character in range"),
        ("node[-1-3]", "negative number in range"),
        ("node[1.5-3]", "non-integer in range"),
        ("node[1--3]", "double hyphen in range"),
        ("node[[1-3]]", "nested brackets"),
        ("node[1:2]", "using colon instead of hyphen for range"),
    ];

    for (input, description) in inputs {
        let result = input.parse::<Hostlist>();
        if let Ok(hostlist) = result {
            let hostlist = hostlist.to_string();
            panic!("Failure on '{input}' ({description}). Hostlist parsed to: '{hostlist}'.");
        }
    }
}

#[test]
fn test_hostlist_valid() -> Result<(), Error> {
    let inputs = [
        ("node[1-3]", vec!["node1", "node2", "node3"]),
        ("node[01-03]", vec!["node1", "node2", "node3"]),
        ("node[04-06]", vec!["node4", "node5", "node6"]),
        ("compute[1,3,5]", vec!["compute1", "compute3", "compute5"]),
        (
            "server[1-3,5,7-9]",
            vec![
                "server1", "server2", "server3", "server5", "server7", "server8", "server9",
            ],
        ),
        (
            "host[1-3]-rack[1-2]",
            vec![
                "host1-rack1",
                "host1-rack2",
                "host2-rack1",
                "host2-rack2",
                "host3-rack1",
                "host3-rack2",
            ],
        ),
        (
            "node[4-6,8,10-12]",
            vec![
                "node4", "node5", "node6", "node8", "node10", "node11", "node12",
            ],
        ),
        (
            "prefix[1-3]suffix",
            vec!["prefix1suffix", "prefix2suffix", "prefix3suffix"],
        ),
        (
            "node[1-3],server[1-2]",
            vec!["node1", "node2", "node3", "server1", "server2"],
        ),
        ("", vec![]),
        ("singlenode", vec!["singlenode"]),
        ("node[0-0]", vec!["node0"]),
        ("node[42]", vec!["node42"]),
    ];

    for (input, expected) in inputs {
        println!("input: \"{input}\"");
        let hosts = collect(&mut input.parse::<Hostlist>()?);
        assert_eq!(hosts, expected);
    }

    Ok(())
}

#[test]
fn test_hostlist_display() -> Result<(), Error> {
    let inputs = [
        ("node[1-3]", "node[1-3]"),
        ("node[01-03]", "node[1-3]"),
        ("node[04-06]", "node[4-6]"),
        ("node[04-04]", "node[4]"),
        ("compute[1,3,5]", "compute[1,3,5]"),
        ("server[1-3,5,7-9]", "server[1-3,5,7-9]"),
        ("host[1-3]-rack[1-2]", "host[1-3]-rack[1-2]"),
        ("node[4-6,8,10-12]", "node[4-6,8,10-12]"),
        ("prefix[1-3]suffix", "prefix[1-3]suffix"),
        ("node[1-3],server[1-2]", "node[1-3],server[1-2]"),
        ("", ""),
        ("singlenode", "singlenode"),
        ("node[0]", "node[0]"),
        ("node[0-0]", "node[0]"),
        ("node[42]", "node[42]"),
    ];

    for (input, expected) in inputs {
        println!("input: \"{input}\"");
        let hostlist = input.parse::<Hostlist>()?;
        assert_eq!(hostlist.to_string(), expected);
    }

    Ok(())
}

#[test]
fn hostlist_is_empty_follows_the_walk() {
    let empty = Hostlist::new("").unwrap();
    assert!(empty.is_empty());
    assert_eq!(empty.len(), 0);

    let mut hostlist = Hostlist::new("a,b[1-2]").unwrap();
    assert!(!hostlist.is_empty());
    assert_eq!(hostlist.next(), Some("a".to_string()));
    assert!(!hostlist.is_empty());
    assert_eq!(hostlist.next(), Some("b1".to_string()));
    assert_eq!(hostlist.next(), Some("b2".to_string()));
    assert!(hostlist.is_empty());
    assert_eq!(hostlist.next(), None);
    assert_eq!(hostlist.next(), None);
    assert!(hostlist.is_empty());
}

#[test]
fn hostlist_merges_only_entries_with_one_set() {
    // one set of numbers and the same shape: merged
    let h = Hostlist::new("n[1-2]x,n[2-3]x,n[9]x").unwrap();
    assert_eq!(h.to_string(), "n[1-3,9]x");
    assert_eq!(h.len(), 4);
    // two sets of numbers: kept apart, even with the same shape
    let mut h = Hostlist::new("n[1-2]m[1],n[2-3]m[1]").unwrap();
    assert_eq!(h.to_string(), "n[1-2]m[1],n[2-3]m[1]");
    assert_eq!(h.len(), 4);
    assert_eq!(collect(&mut h), vec!["n1m1", "n2m1", "n2m1", "n3m1"]);
    // no set of numbers: kept apart
    let mut h = Hostlist::new("a,a").unwrap();
    assert_eq!(h.to_string(), "a,a");
    assert_eq!(collect(&mut h), vec!["a", "a"]);
    // different text: kept apart
    let h = Hostlist::new("n[1-2]x,n[2-3]y").unwrap();
    assert_eq!(h.to_string(), "n[1-2]x,n[2-3]y");
}

#[test]
fn hostlist_entries_are_kept_in_order() {
    let h = Hostlist::new("server,n[5-7,60]-01, an[1-3,9]").unwrap();
    assert_eq!(h.to_string(), "an[1-3,9],n[5-7,60]-01,server");
    // text comes before numbers, and a text before the texts it begins
    let h = Hostlist::new("ab[1],a[2]b,a[1]c,a[1],abc,ab").unwrap();
    assert_eq!(h.to_string(), "a[1],a[1]c,a[2]b,ab,ab[1],abc");
    // sets of numbers are compared range by range
    let h = Hostlist::new("n[2][1],n[1,3][9],n[1-3][5],n[1][7]").unwrap();
    assert_eq!(h.to_string(), "n[1][7],n[1,3][9],n[1-3][5],n[2][1]");
}

#[test]
fn hostlist_rendering_is_a_fixed_point() {
    let inputs = [
        "node[01-03]",
        "n[5-7,60]-01, an[1-3,9],server",
        "node[1-3,2-5],node[2-7]",
        "n[1-2]m[1-3]o[1-2],compute[1-2]x[5-6]",
        "b,a,c[3,1,2],c[7]",
        "",
    ];
    for input in inputs {
        let first = Hostlist::new(input).unwrap();
        let text = first.to_string();
        let mut second = Hostlist::new(&text).unwrap();
        assert_eq!(second.to_string(), text);
        assert_eq!(second.len(), first.len());
        let mut first = first;
        assert_eq!(collect(&mut first), collect(&mut second));
    }
}

#[test]
fn hostlist_partial_consumption_is_stable() {
    let expr = "n[1-2]m[1-3],x[7-9],lone";
    let mut all = Hostlist::new(expr).unwrap();
    let total = all.len();
    let names = collect(&mut all);
    assert_eq!(names.len(), total);
    assert_eq!(total, 10);
    for taken in 0..=total {
        let mut h = Hostlist::new(expr).unwrap();
        for name in names.iter().take(taken) {
            assert_eq!(h.next().as_ref(), Some(name));
        }
        assert_eq!(h.len(), total - taken);
        let mut copy = h.iter();
        assert_eq!(copy.len(), total - taken);
        assert_eq!(collect(&mut copy), names[taken..].to_vec());
        assert_eq!(h.len(), total - taken);
        assert_eq!(collect(&mut h), names[taken..].to_vec());
        assert_eq!(h.len(), 0);
    }
}

#[test]
fn hostlist_errors() {
    assert!(matches!(
        Hostlist::new("node[5-1]"),
        Err(Error::InvalidRangeReversed { start: 5, end: 1 })
    ));
    assert!(matches!(
        Hostlist::new("n[4294967295]"),
        Err(Error::TooLarge(4_294_967_295))
    ));
    assert!(matches!(
        Hostlist::new("n[1-4294967295]"),
        Err(Error::TooLarge(4_294_967_295))
    ));
    // a number that no 32-bit value holds does not follow the grammar
    assert!(matches!(
        Hostlist::new("n[4294967296]"),
        Err(Error::ParseError(_))
    ));
    assert!(matches!(Hostlist::new("node[1-"), Err(Error::ParseError(_))));
    match Hostlist::new("node[1-") {
        Err(Error::ParseError(text)) => assert_eq!(text, "node[1-"),
        _ => panic!("an unfinished bracket group must be refused"),
    }
    // a fault of the grammar is found before a fault among the bounds
    assert!(matches!(
        Hostlist::new("n[5-1],m["),
        Err(Error::ParseError(_))
    ));
    // the first entry at fault decides
    assert!(matches!(
        Hostlist::new("a[1-4294967295],n[5-1]"),
        Err(Error::TooLarge(4_294_967_295))
    ));
    // the largest bound a range may have
    let h = Hostlist::new("n[4294967294]").unwrap();
    assert_eq!(h.len(), 1);
    assert_eq!(h.to_string(), "n[4294967294]");
}

#[test]
fn hostlist_grammar_edges() {
    for bad in [
        ",", "a,", ",a", "a,,b", " a", "a ", "a, ", "a b", "a[]", "a[1", "a]", "a[1]]", "a[1-2-3]",
        "a[1 ,2]", "a[ 1]", "a[1]b[", "a?", "a/b", "é", "a[+1]", "[1]a",
    ] {
        assert!(
            matches!(Hostlist::new(bad), Err(Error::ParseError(_))),
            "{bad:?} must be refused"
        );
    }
    for (good, text) in [
        ("a,  b", "a,b"),
        ("a,\tb", "a,b"),
        ("a_b.c-d", "a_b.c-d"),
        ("-", "-"),
        ("0", "0"),
        ("a[007]", "a[7]"),
        ("a[0000000000000000000001-3]", "a[1-3]"),
        ("a[1][2]", "a[1][2]"),
        ("a[1]b[2]c", "a[1]b[2]c"),
        ("A[1],a[1]", "A[1],a[1]"),
    ] {
        assert_eq!(Hostlist::new(good).unwrap().to_string(), text);
    }
}

#[test]
fn error_messages() {
    assert_eq!(
        Error::InvalidRangeReversed { start: 5, end: 1 }.to_string(),
        "invalid range \"[5-1]\": start greater than end"
    );
    assert_eq!(
        Error::TooLarge(4_294_967_295).to_string(),
        "integer value 4294967295 exceeds limits"
    );
    assert_eq!(Error::HostlistTooLarge.to_string(), "hostlist is too large");
    assert_eq!(
        Error::InvalidHostname("a b".to_string()).to_string(),
        "invalid hostname: \"a b\""
    );
    assert_eq!(
        Error::Internal("oops".to_string()).to_string(),
        "internal error: \"oops\""
    );
    assert_eq!(
        Error::ParseError("n[".to_string()).to_string(),
        "parse error:\nn["
    );
}

#[test]
fn hostlist_order_is_the_order_of_the_entries_themselves() {
    let exprs = [
        "ab[1],a[2]b,a[1]c,a[1],abc,ab",
        "n[2][1],n[1,3][9],n[1-3][5],n[1][7],n[1][6]",
        "server,n[5-7,60]-01, an[1-3,9],An[1],a-n,a.n,a_n,a0",
        "x[1-2]y[1-2],x[1-2]y[1-3],x[1-3]y[1],x[1-2]y",
    ];
    for expr in exprs {
        let h = Hostlist::new(expr).unwrap();
        let mut sorted = h.hostlist_elems.clone();
        sorted.sort();
        assert_eq!(sorted, h.hostlist_elems);
        for a in &h.hostlist_elems {
            for b in &h.hostlist_elems {
                let expected = match a.cmp(b) {
                    std::cmp::Ordering::Less => -1,
                    std::cmp::Ordering::Equal => 0,
                    std::cmp::Ordering::Greater => 1,
                };
                assert_eq!(compare_elems(a, b), expected);
            }
        }
    }
}

#[test]
fn hostlist_clone_is_a_walk_of_its_own() {
    let mut h = Hostlist::new("n[1-3]").unwrap();
    assert_eq!(h.next(), Some("n1".to_string()));
    let mut copy = h.clone();
    assert_eq!(copy, h);
    assert_eq!(copy.next(), Some("n2".to_string()));
    assert_eq!(h.len(), 2);
    assert_eq!(copy.len(), 1);
}
