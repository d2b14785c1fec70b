use staticserve::cond::{etag_of, hex_u64, last_modified_value, none_match, not_modified};
use staticserve::config::{
    construct_path, load_config, make_config, parse_ip, parse_ipv4, parse_ipv6, parse_octet,
    parse_port, verify_pathdir, BindAddr, ConfigError, Ipv4,
};
use staticserve::listing::{lex_le, render_listing, sort_names, visible_names};
use staticserve::mime::{content_type_for, extension_of};
use staticserve::reqpath::{
    classify, is_hidden, path_segments, percent_decode, resolve_path, resolve_request_path, Action,
    FsNode, Resolved,
};
use staticserve::util::{eq_bytes, split_bytes};

#[test]
fn split_keeps_empty_pieces() {
    let r = split_bytes(b"a,,b", b',');
    assert_eq!(r, vec![b"a".to_vec(), b"".to_vec(), b"b".to_vec()]);
}

#[test]
fn eq_bytes_works() {
    assert!(eq_bytes(b"abc", b"abc"));
    assert!(!eq_bytes(b"abc", b"abd"));
    assert!(!eq_bytes(b"ab", b"abc"));
}

#[test]
fn segments_collapse_slashes() {
    let r = path_segments(b"/foo//bar/");
    assert_eq!(r, vec![b"foo".to_vec(), b"bar".to_vec()]);
    assert_eq!(path_segments(b"/foo/bar"), r);
}

#[test]
fn hidden_names() {
    assert!(is_hidden(b".secret"));
    assert!(!is_hidden(b"plain"));
    assert!(!is_hidden(b""));
}

#[test]
fn traversal_escapes_root() {
    assert_eq!(resolve_path(b"/../../etc/passwd", false), Resolved::Escapes);
    assert_eq!(resolve_path(b"/a/../../b", true), Resolved::Escapes);
}

#[test]
fn dotdot_within_root_resolves() {
    assert_eq!(
        resolve_path(b"/a/../b", true),
        Resolved::Within(vec![b"b".to_vec()])
    );
}

#[test]
fn dot_segments_are_dropped() {
    assert_eq!(
        resolve_path(b"/a/./b", true),
        Resolved::Within(vec![b"a".to_vec(), b"b".to_vec()])
    );
}

#[test]
fn dotfile_denied_without_show_hidden() {
    assert_eq!(resolve_path(b"/.secret", false), Resolved::HiddenDenied);
}

#[test]
fn dotfile_served_with_show_hidden() {
    assert_eq!(
        resolve_path(b"/.secret", true),
        Resolved::Within(vec![b".secret".to_vec()])
    );
}

#[test]
fn hidden_component_denied_anywhere() {
    assert_eq!(resolve_path(b"/a/.hid/c", false), Resolved::HiddenDenied);
}

#[test]
fn file_request_is_served() {
    assert_eq!(
        resolve_path(b"/file.txt", false),
        Resolved::Within(vec![b"file.txt".to_vec()])
    );
    assert_eq!(classify(&FsNode::File, false), Action::ServeFile);
}

#[test]
fn missing_target_is_not_found() {
    assert_eq!(classify(&FsNode::Missing, false), Action::NotFound);
    assert_eq!(classify(&FsNode::Missing, true), Action::NotFound);
}

#[test]
fn directory_with_index_serves_index() {
    assert_eq!(classify(&FsNode::Dir, true), Action::ServeIndex);
}

#[test]
fn directory_without_index_lists() {
    assert_eq!(classify(&FsNode::Dir, false), Action::Listing);
}

#[test]
fn hex_formatting() {
    assert_eq!(hex_u64(0), b"0".to_vec());
    assert_eq!(hex_u64(255), b"ff".to_vec());
    assert_eq!(hex_u64(4096), b"1000".to_vec());
}

#[test]
fn etag_format() {
    assert_eq!(etag_of(255, 16), b"\"ff-10\"".to_vec());
}

#[test]
fn etag_round_trip_gives_not_modified() {
    let e = etag_of(5, 7);
    assert!(none_match(&e, &e));
    assert!(not_modified(true, Some(&e), &e, true, None, 7));
}

#[test]
fn if_none_match_list_and_wildcard() {
    assert!(none_match(b"\"a\", \"b\"", b"\"b\""));
    assert!(none_match(b"*", b"\"x\""));
    assert!(!none_match(b"\"a\"", b"\"b\""));
}

#[test]
fn if_none_match_takes_precedence() {
    let e = b"\"aa\"".to_vec();
    let stale = b"\"zz\"".to_vec();
    assert!(!not_modified(
        true,
        Some(&stale),
        &e,
        true,
        Some("Thu, 01 Jan 1970 00:00:01 GMT"),
        0
    ));
}

#[test]
fn if_modified_since_compares_dates() {
    let e = b"\"aa\"".to_vec();
    assert!(not_modified(
        true,
        None,
        &e,
        true,
        Some("Sun, 06 Nov 1994 08:49:37 GMT"),
        784111777
    ));
    assert!(!not_modified(
        true,
        None,
        &e,
        true,
        Some("Sun, 06 Nov 1994 08:49:37 GMT"),
        784111778
    ));
}

#[test]
fn disabled_features_never_give_not_modified() {
    let e = etag_of(1, 1);
    assert!(!not_modified(false, Some(&e), &e, false, Some("Sun, 06 Nov 1994 08:49:37 GMT"), 0));
}

#[test]
fn last_modified_header_value() {
    assert_eq!(
        last_modified_value(784111777),
        Some("Sun, 06 Nov 1994 08:49:37 GMT".to_string())
    );
    assert_eq!(last_modified_value(253402300800), None);
}

#[test]
fn port_range() {
    assert_eq!(parse_port(b"0"), None);
    assert_eq!(parse_port(b"8080"), Some(8080));
    assert_eq!(parse_port(b"65535"), Some(65535));
    assert_eq!(parse_port(b"65536"), None);
    assert_eq!(parse_port(b""), None);
    assert_eq!(parse_port(b"12a"), None);
}

#[test]
fn ipv4_literals() {
    assert_eq!(parse_ipv4(b"0.0.0.0"), Some(Ipv4 { a: 0, b: 0, c: 0, d: 0 }));
    assert_eq!(
        parse_ipv4(b"127.0.0.1"),
        Some(Ipv4 { a: 127, b: 0, c: 0, d: 1 })
    );
    assert_eq!(parse_ipv4(b"256.0.0.1"), None);
    assert_eq!(parse_ipv4(b"1.2.3"), None);
    assert_eq!(parse_ipv4(b"01.2.3.4"), None);
    assert_eq!(parse_ipv4(b"1..2.3"), None);
}

#[test]
fn config_error_order() {
    assert_eq!(
        make_config(b"foo", b"8080", ".", true, "index.html", true, true, false),
        Err(ConfigError::BadAddress)
    );
    assert_eq!(
        make_config(b"1.2.3.4", b"0", ".", true, "index.html", true, true, false),
        Err(ConfigError::BadPort)
    );
    assert_eq!(
        make_config(b"1.2.3.4", b"80", ".", false, "index.html", true, true, false),
        Err(ConfigError::NotADirectory)
    );
    assert_eq!(
        make_config(b"1.2.3.4", b"80", ".", true, "", true, true, false),
        Err(ConfigError::EmptyIndex)
    );
}

#[test]
fn config_ok_fields() {
    let c = make_config(b"127.0.0.1", b"8080", "webroot", true, "index.html", true, false, true)
        .unwrap();
    assert_eq!(c.addr, BindAddr::V4(Ipv4 { a: 127, b: 0, c: 0, d: 1 }));
    assert_eq!(c.port, 8080);
    assert_eq!(c.root, "webroot");
    assert_eq!(c.index, "index.html");
    assert!(c.etag);
    assert!(!c.last_modified);
    assert!(c.show_hidden);
}

#[test]
fn load_config_checks_directory() {
    let c = load_config(b"0.0.0.0", b"8080", ".", "index.html", true, true, false).unwrap();
    assert_eq!(c.root, ".");
    assert_eq!(
        load_config(b"0.0.0.0", b"8080", "no-such-dir-zzz", "index.html", true, true, false),
        Err(ConfigError::NotADirectory)
    );
}

#[test]
fn verify_pathdir_accepts_directories() {
    assert_eq!(verify_pathdir("."), Ok(".".to_string()));
}

#[test]
fn verify_pathdir_rejects_others() {
    assert_eq!(
        verify_pathdir("no-such-dir-zzz"),
        Err("no-such-dir-zzz is not a directory".to_string())
    );
}

#[test]
fn construct_path_keeps_value() {
    assert_eq!(construct_path("."), ".".to_string());
}

#[test]
fn lexicographic_order() {
    assert!(lex_le(b"a", b"ab"));
    assert!(!lex_le(b"ab", b"a"));
    assert!(lex_le(b"abc", b"abd"));
    assert!(lex_le(b"abc", b"abc"));
    assert!(!lex_le(b"b", b"a"));
}

#[test]
fn listing_is_sorted_and_complete() {
    let names = vec![b"b".to_vec(), b"c".to_vec(), b"a".to_vec()];
    let sorted = sort_names(names);
    assert_eq!(sorted, vec![b"a".to_vec(), b"b".to_vec(), b"c".to_vec()]);
    assert_eq!(render_listing(&sorted), b"a\nb\nc\n".to_vec());
}

#[test]
fn extensions() {
    assert_eq!(extension_of(b"a.tar.gz"), b"gz".to_vec());
    assert_eq!(extension_of(b"noext"), b"".to_vec());
    assert_eq!(extension_of(b".hidden"), b"".to_vec());
}

#[test]
fn content_types() {
    assert_eq!(
        content_type_for(b"index.html"),
        b"text/html; charset=utf-8".to_vec()
    );
    assert_eq!(content_type_for(b"img.png"), b"image/png".to_vec());
    assert_eq!(
        content_type_for(b"noext"),
        b"application/octet-stream".to_vec()
    );
}

#[test]
fn root_path_is_the_root_directory() {
    assert_eq!(resolve_path(b"/", false), Resolved::Within(vec![]));
    assert_eq!(resolve_path(b"", true), Resolved::Within(vec![]));
}

#[test]
fn huge_port_is_rejected() {
    assert_eq!(parse_port(b"99999999999999999999"), None);
}

#[test]
fn octets_reject_leading_zeros_and_overflow() {
    assert_eq!(parse_octet(b"0"), Some(0));
    assert_eq!(parse_octet(b"255"), Some(255));
    assert_eq!(parse_octet(b"256"), None);
    assert_eq!(parse_octet(b"00"), None);
    assert_eq!(parse_octet(b"1234"), None);
}

#[test]
fn ipv6_literals() {
    let groups = |v: Vec<u16>| v;
    assert_eq!(
        parse_ipv6(b"::1").map(|ip| ip.groups),
        Some(groups(vec![0, 0, 0, 0, 0, 0, 0, 1]))
    );
    assert_eq!(
        parse_ipv6(b"2001:db8::8:800:200c:417a").map(|ip| ip.groups),
        Some(groups(vec![0x2001, 0xdb8, 0, 0, 0x8, 0x800, 0x200c, 0x417a]))
    );
    assert_eq!(
        parse_ipv6(b"1:2:3:4:5:6:7:8").map(|ip| ip.groups),
        Some(groups(vec![1, 2, 3, 4, 5, 6, 7, 8]))
    );
    assert_eq!(
        parse_ipv6(b"::ffff:192.0.2.1").map(|ip| ip.groups),
        Some(groups(vec![0, 0, 0, 0, 0, 0xffff, 0xc000, 0x0201]))
    );
    assert_eq!(
        parse_ipv6(b"1:2:3:4:5:6:1.2.3.4").map(|ip| ip.groups),
        Some(groups(vec![1, 2, 3, 4, 5, 6, 0x0102, 0x0304]))
    );
    assert_eq!(
        parse_ipv6(b"1:2:3:4:5:6:7::").map(|ip| ip.groups),
        Some(groups(vec![1, 2, 3, 4, 5, 6, 7, 0]))
    );
    assert_eq!(
        parse_ipv6(b"::").map(|ip| ip.groups),
        Some(groups(vec![0, 0, 0, 0, 0, 0, 0, 0]))
    );
}

#[test]
fn ipv6_rejections() {
    assert_eq!(parse_ipv6(b":"), None);
    assert_eq!(parse_ipv6(b":::"), None);
    assert_eq!(parse_ipv6(b"1:2:3:4:5:6:7"), None);
    assert_eq!(parse_ipv6(b"1:2:3:4:5:6:7:8:9"), None);
    assert_eq!(parse_ipv6(b"::1:2:3:4:5:6:7:8"), None);
    assert_eq!(parse_ipv6(b"1::2::3"), None);
    assert_eq!(parse_ipv6(b"12345::"), None);
    assert_eq!(parse_ipv6(b"1.2.3.4::"), None);
    assert_eq!(parse_ipv6(b"g::1"), None);
    assert_eq!(parse_ipv6(b":1:2:3:4:5:6:7"), None);
}

#[test]
fn both_address_families_load() {
    assert!(matches!(parse_ip(b"0.0.0.0"), Some(BindAddr::V4(_))));
    assert!(matches!(parse_ip(b"::1"), Some(BindAddr::V6(_))));
    assert_eq!(parse_ip(b"localhost"), None);
    let c = make_config(b"::1", b"8080", ".", true, "index.html", true, true, false).unwrap();
    assert!(matches!(c.addr, BindAddr::V6(_)));
}

#[test]
fn percent_escapes_decode() {
    assert_eq!(percent_decode(b"a%20b"), b"a b".to_vec());
    assert_eq!(percent_decode(b"%41%6213"), b"Ab13".to_vec());
    assert_eq!(percent_decode(b"100%"), b"100%".to_vec());
    assert_eq!(percent_decode(b"%zz"), b"%zz".to_vec());
}

#[test]
fn encoded_traversal_fails_closed() {
    assert_eq!(resolve_request_path(b"/%2e%2e/etc", false), Resolved::Escapes);
    assert_eq!(
        resolve_request_path(b"/my%20file.txt", false),
        Resolved::Within(vec![b"my file.txt".to_vec()])
    );
}

#[test]
fn listing_hides_hidden_names_by_flag() {
    let names = vec![b".hid".to_vec(), b"a".to_vec()];
    assert_eq!(visible_names(names.clone(), false), vec![b"a".to_vec()]);
    assert_eq!(visible_names(names.clone(), true), names);
}
