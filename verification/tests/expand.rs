use hostlist_iter::{expand_hostlist, Error};

#[test]
fn test_expand_simple1() {
    let hostlist = "n1";
    let expected = vec!["n1"];

    let result = expand_hostlist(hostlist).unwrap();
    assert_eq!(expected, result);
}

#[test]
fn test_expand_simple2() {
    let hostlist = "abc,cba1";
    let expected = vec!["abc", "cba1"];

    let result = expand_hostlist(hostlist).unwrap();
    assert_eq!(expected, result);
}

#[test]
fn test_expand_simple3() {
    let hostlist = "n[1-3,9]";
    let expected = vec!["n1", "n2", "n3", "n9"];

    let result = expand_hostlist(hostlist).unwrap();
    assert_eq!(expected, result);
}

#[test]
fn test_expand_valid() {
    let hostlist = "node[1-5]";
    let expected = vec!["node1", "node2", "node3", "node4", "node5"];

    let result = expand_hostlist(hostlist).unwrap();
    assert_eq!(expected, result);
}

#[test]
fn test_expand_invalid_format() {
    let hostlist = "node[1-5"; // Missing closing bracket
    let result = expand_hostlist(hostlist);
    assert!(matches!(result, Err(Error::ParseError(_))));
}

#[test]
fn test_expand_invalid_reversed_range() {
    let hostlist = "node[5-1]";
    let result = expand_hostlist(hostlist);
    assert!(matches!(
        result,
        Err(Error::InvalidRangeReversed { start: 5, end: 1 })
    ));
}

#[test]
fn test_expand_range_integer_overflow() {
    let hostlist = "n[4294967295]";
    let result = expand_hostlist(hostlist);
    assert!(matches!(result, Err(Error::TooLarge(4_294_967_295))));
}

#[test]
fn test_expand_single() {
    let hostlist = "node[7-7]";
    let expected = vec!["node7"];
    let result = expand_hostlist(hostlist).unwrap();
    assert_eq!(expected, result);
}

#[test]
fn test_expand_space_separation() {
    let hostlist = "n[5-7,60]-01, an[1-3,9],server";
    let expected = vec![
        "an1", "an2", "an3", "an9", "n5-01", "n6-01", "n7-01", "n60-01", "server",
    ];
    let result = expand_hostlist(hostlist).unwrap();
    assert_eq!(expected, result);
}

#[test]
fn test_expand_multi_range() {
    let hostlist = "n[1-2]m[1-3]o[1-2]";
    let expected = vec![
        "n1m1o1", "n1m1o2", "n1m2o1", "n1m2o2", "n1m3o1", "n1m3o2", "n2m1o1", "n2m1o2",
        "n2m2o1", "n2m2o2", "n2m3o1", "n2m3o2",
    ];
    let result = expand_hostlist(hostlist).unwrap();
    assert_eq!(expected, result);
}

#[test]
fn test_expand_multi_range_adjacent() {
    let hostlist = "n[1-2][1-3][1-2]";
    let expected = vec![
        "n111", "n112", "n121", "n122", "n131", "n132", "n211", "n212", "n221", "n222", "n231",
        "n232",
    ];
    let result = expand_hostlist(hostlist).unwrap();
    assert_eq!(expected, result);
}

#[test]
fn test_expand_multi_range_list() {
    let hostlist = "n[1-2]m[1-3]o[1-2],compute[1-2]x[5-6]";
    let expected = vec![
        "compute1x5",
        "compute1x6",
        "compute2x5",
        "compute2x6",
        "n1m1o1",
        "n1m1o2",
        "n1m2o1",
        "n1m2o2",
        "n1m3o1",
        "n1m3o2",
        "n2m1o1",
        "n2m1o2",
        "n2m2o1",
        "n2m2o2",
        "n2m3o1",
        "n2m3o2",
    ];
    let result = expand_hostlist(hostlist).unwrap();
    assert_eq!(expected, result);
}

#[test]
fn test_expand_range_overlap1() {
    let tests = [
        ("n[1]", vec!["n1"]),
        ("n[1-3]", vec!["n1", "n2", "n3"]),
        ("n[5,4-6]", vec!["n4", "n5", "n6"]),
        ("n[4-6,5]", vec!["n4", "n5", "n6"]),
        ("n[4,4-6]", vec!["n4", "n5", "n6"]),
        ("n[4-6,4]", vec!["n4", "n5", "n6"]),
        ("n[0,1-2,3-4]", vec!["n0", "n1", "n2", "n3", "n4"]),
        ("n[1,1-2,1-3]", vec!["n1", "n2", "n3"]),
        ("n[1-4,2-6]", vec!["n1", "n2", "n3", "n4", "n5", "n6"]),
        ("n[2-6,1-4]", vec!["n1", "n2", "n3", "n4", "n5", "n6"]),
        ("n[1-5,2-4]", vec!["n1", "n2", "n3", "n4", "n5"]),
        ("n[2-4,1-5]", vec!["n1", "n2", "n3", "n4", "n5"]),
    ];
    for (input, expected) in tests {
        assert_eq!(expected, expand_hostlist(input).unwrap());
    }
}

#[test]
fn test_expand_range_overlap2() {
    let hostlist = "n[3-8,1-6,5-10]";
    let expected = vec!["n1", "n2", "n3", "n4", "n5", "n6", "n7", "n8", "n9", "n10"];
    let result = expand_hostlist(hostlist).unwrap();
    assert_eq!(expected, result);
}

#[test]
fn test_expand_range_overlap3() {
    let hostlist = "n[1-4,2]";
    let expected = vec!["n1", "n2", "n3", "n4"];
    let result = expand_hostlist(hostlist).unwrap();
    assert_eq!(expected, result);
}

#[test]
fn test_expand_range_overlap4() {
    let hostlist = "n[5,3-6,1-3,7,7-10]";
    let expected = vec!["n1", "n2", "n3", "n4", "n5", "n6", "n7", "n8", "n9", "n10"];
    let result = expand_hostlist(hostlist).unwrap();
    assert_eq!(expected, result);
}

#[test]
fn expand_cartesian_product_in_order() {
    let expected = vec!["n1m1", "n1m2", "n1m3", "n2m1", "n2m2", "n2m3"];
    assert_eq!(expand_hostlist("n[1-2]m[1-3]").unwrap(), expected);
}

#[test]
fn expand_merged_entries_give_each_name_once() {
    let expected = vec![
        "node1", "node2", "node3", "node4", "node5", "node6", "node7",
    ];
    assert_eq!(expand_hostlist("node[1-3,2-5],node[2-7]").unwrap(), expected);
}

#[test]
fn expand_overflow_gives_no_names() {
    let result = expand_hostlist("n[1-1000][1-1000][1-1000][1-1000][1-1000][1-1000][1-1000]");
    assert!(matches!(result, Err(Error::HostlistTooLarge)));
    let result = expand_hostlist(
        "n[1-1000000][1-1000000][1-1000000][1-10],o[1-1000000][1-1000000][1-1000000][1-10]",
    );
    assert!(matches!(result, Err(Error::HostlistTooLarge)));
}

#[test]
fn expand_unfinished_group_is_refused() {
    assert!(matches!(expand_hostlist("node[1-"), Err(Error::ParseError(_))));
}

#[test]
fn expand_empty_expression() {
    assert_eq!(expand_hostlist("").unwrap(), Vec::<String>::new());
}

#[test]
fn expand_numbers_with_many_digits() {
    assert_eq!(
        expand_hostlist("n[9-11,99-101,4294967293-4294967294]").unwrap(),
        vec![
            "n9", "n10", "n11", "n99", "n100", "n101", "n4294967293", "n4294967294"
        ]
    );
}
