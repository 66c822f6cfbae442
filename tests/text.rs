use msg_tracer::blockchain::{is_abi_path, parse_lt, select_abi_files};
use msg_tracer::jinja::shorten_string;

#[test]
fn lt_hex_is_parsed() {
    assert_eq!(parse_lt("0x1a2b"), Some(6699));
    assert_eq!(parse_lt("0x10"), Some(16));
    assert_eq!(parse_lt("1A2B"), Some(6699));

    assert_eq!(parse_lt("+a"), Some(10));
    assert_eq!(parse_lt("-10"), Some(-16));
}

#[test]
fn lt_malformed_is_absent() {
    assert_eq!(parse_lt("0xzz"), None);
    assert_eq!(parse_lt("0x0x10"), None);
    assert_eq!(parse_lt(""), None);
    assert_eq!(parse_lt("0x"), None);
    assert_eq!(parse_lt("-"), None);
    assert_eq!(parse_lt("-0x10"), None);
    assert_eq!(parse_lt("0x1g"), None);
}

#[test]
fn lt_range_limits() {
    assert_eq!(parse_lt("0x7fffffffffffffff"), Some(i64::MAX));
    assert_eq!(parse_lt("0x8000000000000000"), None);
    assert_eq!(parse_lt("-8000000000000000"), Some(i64::MIN));
    assert_eq!(parse_lt("-8000000000000001"), None);
    assert_eq!(parse_lt("0x100000000000000000000"), None);
}

#[test]
fn shorten_long_string() {
    let s = "abcdefghijklmnopqrst";
    assert_eq!(s.len(), 20);
    assert_eq!(shorten_string(s, 3, 3, "..."), "abc...rst");
}

#[test]
fn shorten_short_string_unchanged() {
    assert_eq!(shorten_string("abcde", 3, 3, "..."), "abcde");
    assert_eq!(shorten_string("", 1, 0, "..."), "");
}

#[test]
fn shorten_edge_lengths() {
    assert_eq!(shorten_string("abcdef", 3, 3, "~"), "abc~def");
    assert_eq!(shorten_string("abcdef", 0, 0, "--"), "--");
    assert_eq!(shorten_string("abcdef", usize::MAX, usize::MAX, "--"), "abcdef");
}

#[test]
fn abi_paths_are_recognised() {
    assert!(is_abi_path("contracts/wallet.abi.json"));
    assert!(is_abi_path("x.abi"));
    assert!(!is_abi_path("contracts/wallet.tvc"));
    assert!(!is_abi_path(".ab"));
    assert!(!is_abi_path(""));
}

#[test]
fn abi_files_selected_in_order() {
    let entries = vec![
        (String::from("dir/a.abi.json"), true),
        (String::from("dir/sub.abi"), false),
        (String::from("dir/readme.md"), true),
        (String::from("dir/b.abi"), true),
    ];
    assert_eq!(
        select_abi_files(&entries),
        vec![String::from("dir/a.abi.json"), String::from("dir/b.abi")]
    );
    assert_eq!(select_abi_files(&vec![]), Vec::<String>::new());
}
