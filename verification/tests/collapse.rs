use hostlist_iter::collapse::collapse_range;
use hostlist_iter::parser::HostlistParser;
use hostlist_iter::{collapse_hosts, expand_hostlist, Error, Hostlist};
use std::collections::BTreeSet;

#[test]
fn test_collapse_range() {
    let tests = [
        (vec![], ""),
        (vec![7], "7"),
        (vec![1, 2], "[1-2]"),
        (vec![1, 2, 3], "[1-3]"),
        (vec![1, 2, 3, 5], "[1-3,5]"),
        (vec![1, 2, 3, 5, 6, 7], "[1-3,5-7]"),
        (vec![1, 3, 5], "[1,3,5]"),
        (vec![1, 3, 4, 5], "[1,3-5]"),
        (vec![1, 1, 3, 4, 5], "[1,3-5]"),
    ];

    for (input, expected) in tests {
        let mut nums: BTreeSet<u32> = BTreeSet::new();
        nums.extend(input);
        let nums: Vec<u32> = nums.into_iter().collect();
        assert_eq!(collapse_range(&nums), expected);
    }
}

#[test]
fn test_collapse_hosts() -> Result<(), Error> {
    let tests = [
        (vec!["1"], "1"),
        (vec!["1", "2"], "[1-2]"),
        (vec!["1", "2", "4"], "[1-2,4]"),
        (vec!["n0", "1", "2", "4", "n1"], "[1-2,4],n[0-1]"),
        (vec!["n1"], "n1"),
        (vec!["n1", "n2"], "n[1-2]"),
        (vec!["n1", "n2", "n3"], "n[1-3]"),
        (vec!["some.host"], "some.host"),
        (vec!["n1", "n2", "n3", "n5"], "n[1-3,5]"),
        (vec!["n3", "n2", "n1", "n5", "n6"], "n[1-3,5-6]"),
        (vec!["n1", "n2", "n5", "n6", "foo1"], "foo1,n[1-2,5-6]"),
        (
            vec!["n1", "n2", "n3", "n5", "n6", "foo1"],
            "foo1,n[1-3,5-6]",
        ),
        (vec!["n001", "n002", "n003"], "n[1-3]"),
    ];
    for (input, expected) in tests {
        assert_eq!(expected, collapse_hosts(input)?);
    }

    Ok(())
}

#[test]
fn test_collapse_hosts_invalid() {
    let invalid_inputs = [
        vec!["foo[1-2]"],
        vec!["node1", "node2?"],
        vec![""],
        vec!["!#*&^!*&#$"],
        vec!["\u{00f0}\u{0178}\u{02dc}\u{20ac}"],
    ];

    for input in &invalid_inputs {
        match collapse_hosts(input.clone()) {
            Err(Error::InvalidHostname(_) | Error::ParseError(_)) => (),
            _ => panic!("unexpected result from collapse_hosts for input {input:?}"),
        }
    }
}

#[test]
fn collapse_round_trip() {
    let hosts = expand_hostlist("node[01-03]").unwrap();
    assert_eq!(hosts, vec!["node1", "node2", "node3"]);
    let names: Vec<&str> = hosts.iter().map(|h| h.as_str()).collect();
    assert_eq!(collapse_hosts(names).unwrap(), "node[1-3]");

    for expr in ["node[1-3,5,7-9]", "a,b,c", "x[1-2],y[4,6]", "n[5]", "rack-n[10-19,30]"] {
        let canonical = Hostlist::new(expr).unwrap().to_string();
        let hosts = expand_hostlist(expr).unwrap();
        let names: Vec<&str> = hosts.iter().map(|h| h.as_str()).collect();
        let collapsed = collapse_hosts(names).unwrap();
        // a single number is written without brackets when names are collapsed
        let canonical = canonical.replace("n[5]", "n5");
        assert_eq!(collapsed, canonical);
    }
}

#[test]
fn collapse_keeps_literals_first_and_in_order() {
    let hosts = vec!["zeta", "n2", "alpha", "zeta", "m7", "n1"];
    assert_eq!(collapse_hosts(hosts).unwrap(), "zeta,alpha,zeta,m7,n[1-2]");
}

#[test]
fn collapse_numbers_once_and_in_order() {
    let hosts = vec!["n10", "n2", "n10", "n3", "n1", "n010", "n12"];
    assert_eq!(collapse_hosts(hosts).unwrap(), "n[1-3,10,12]");
    let hosts = vec!["b2", "a9", "b1", "a7", "c4"];
    assert_eq!(collapse_hosts(hosts).unwrap(), "a[7,9],b[1-2],c4");
}

#[test]
fn collapse_nothing_gives_nothing() {
    assert_eq!(collapse_hosts(Vec::new()).unwrap(), "");
}

#[test]
fn collapse_largest_number() {
    assert_eq!(
        collapse_hosts(vec!["n4294967295", "n4294967294"]).unwrap(),
        "n[4294967294-4294967295]"
    );
    assert_eq!(collapse_range(&vec![0, 4_294_967_295]), "[0,4294967295]");
}

#[test]
fn collapse_errors_name_the_host() {
    match collapse_hosts(vec!["ok1", "not ok", "also?bad"]) {
        Err(Error::InvalidHostname(text)) => assert_eq!(text, "not ok"),
        _ => panic!("a blank in a host name must be refused"),
    }
    match collapse_hosts(vec![""]) {
        Err(Error::InvalidHostname(text)) => assert_eq!(text, ""),
        _ => panic!("the empty host name must be refused"),
    }
    match collapse_hosts(vec!["n1", "n4294967296"]) {
        Err(Error::ParseError(text)) => assert_eq!(text, "n4294967296"),
        _ => panic!("a number beyond 32 bits must be refused"),
    }
}

#[test]
fn simple_hostname_split() {
    let (prefix, suffix) = HostlistParser::parse_simple_hostname("n5-01").unwrap();
    assert_eq!(prefix, "n5-");
    assert_eq!(suffix, Some(1));
    let (prefix, suffix) = HostlistParser::parse_simple_hostname("some.host").unwrap();
    assert_eq!(prefix, "some.host");
    assert_eq!(suffix, None);
    let (prefix, suffix) = HostlistParser::parse_simple_hostname("0042").unwrap();
    assert_eq!(prefix, "");
    assert_eq!(suffix, Some(42));
    let (prefix, suffix) = HostlistParser::parse_simple_hostname("a_b9").unwrap();
    assert_eq!(prefix, "a_b");
    assert_eq!(suffix, Some(9));
}

#[test]
fn collapse_undoes_expand_of_a_numbered_name() {
    for expr in ["node[1-3]", "n[1,3]", "rack-[0-9,20-29,40]", "x.y_[7-8]"] {
        let hosts = expand_hostlist(expr).unwrap();
        let names: Vec<&str> = hosts.iter().map(|h| h.as_str()).collect();
        assert_eq!(collapse_hosts(names).unwrap(), expr);
    }
    // one number is written without brackets
    let hosts = expand_hostlist("node[7]").unwrap();
    let names: Vec<&str> = hosts.iter().map(|h| h.as_str()).collect();
    assert_eq!(collapse_hosts(names).unwrap(), "node7");
}
