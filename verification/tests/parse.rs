use ipdb_parser::ipv4::parse_into_ipv4;

#[test]
fn plain_quad_parses() {
    assert_eq!(parse_into_ipv4("1.2.3.4"), Some([1, 2, 3, 4]));
    assert_eq!(parse_into_ipv4("0.0.0.0"), Some([0, 0, 0, 0]));
    assert_eq!(parse_into_ipv4("255.255.255.255"), Some([255, 255, 255, 255]));
    assert_eq!(parse_into_ipv4("192.168.0.1"), Some([192, 168, 0, 1]));
}

#[test]
fn octet_range_enforced() {
    assert_eq!(parse_into_ipv4("256.1.1.1"), None);
    assert_eq!(parse_into_ipv4("1.2.3.999"), None);
    assert_eq!(parse_into_ipv4("25.26.270.1"), None);
}

#[test]
fn leading_zeros_rejected() {
    assert_eq!(parse_into_ipv4("01.2.3.4"), None);
    assert_eq!(parse_into_ipv4("1.2.3.04"), None);
    assert_eq!(parse_into_ipv4("1.00.3.4"), None);
}

#[test]
fn shape_enforced() {
    assert_eq!(parse_into_ipv4(""), None);
    assert_eq!(parse_into_ipv4("1.2.3"), None);
    assert_eq!(parse_into_ipv4("1.2.3.4.5"), None);
    assert_eq!(parse_into_ipv4("1.2.3."), None);
    assert_eq!(parse_into_ipv4(".1.2.3.4"), None);
    assert_eq!(parse_into_ipv4("1..2.3"), None);
    assert_eq!(parse_into_ipv4("1.2.3.x"), None);
    assert_eq!(parse_into_ipv4("a.b.c.d"), None);
    assert_eq!(parse_into_ipv4("1.2.3.4 "), None);
    assert_eq!(parse_into_ipv4("1,2,3,4"), None);
}

#[test]
fn non_ascii_rejected() {
    assert_eq!(parse_into_ipv4("1.2.3.\u{ff14}"), None);
}
