//! Tests of CIDR parsing, rendering and the error messages.

use cidr4::ipv4::CIDR;

fn parse_ok(s: &str) -> CIDR {
    match CIDR::parse(s) {
        Ok(c) => c,
        Err(e) => panic!("expected {} to parse, got: {}", s, e.0),
    }
}

fn parse_err(s: &str) -> String {
    match CIDR::parse(s) {
        Ok(_) => panic!("expected {} to be rejected", s),
        Err(e) => e.0,
    }
}

#[test]
fn round_trip_samples() {
    for s in [
        "10.0.0.0/8",
        "192.168.1.0/24",
        "255.255.255.255/32",
        "0.0.0.0/8",
        "1.2.3.4/31",
        "172.16.254.1/12",
    ] {
        assert_eq!(parse_ok(s).to_text(), s);
    }
}

#[test]
fn prefix_boundaries() {
    assert_eq!(parse_ok("1.2.3.4/8").subnetmask(), 8);
    assert_eq!(parse_ok("1.2.3.4/32").subnetmask(), 32);
    assert_eq!(parse_err("1.2.3.4/7"), "invalid subnetmask range: 7");
    assert_eq!(parse_err("1.2.3.4/33"), "invalid subnetmask range: 33");
}

#[test]
fn prefix_not_a_number() {
    assert_eq!(parse_err("1.2.3.4/x"), "invalid subnetmask range: x");
    assert_eq!(parse_err("1.2.3.4/"), "invalid subnetmask range: ");
    assert_eq!(parse_err("1.2.3.4/2 4"), "invalid subnetmask range: 2 4");
    assert_eq!(parse_err("1.2.3.4/-8"), "invalid subnetmask range: -8");
}

#[test]
fn missing_separator() {
    assert_eq!(
        parse_err("192.168.1.0"),
        "cannot find address / subnetmask: 192.168.1.0"
    );
    assert_eq!(parse_err(""), "cannot find address / subnetmask: ");
}

#[test]
fn too_many_attributes() {
    assert_eq!(
        parse_err("1.2.3.4/24/1"),
        "included unknown attribute: 1.2.3.4/24/1"
    );
    assert_eq!(
        parse_err("1.2.3.4/24/"),
        "included unknown attribute: 1.2.3.4/24/"
    );
    assert_eq!(parse_err("//"), "included unknown attribute: //");
}

#[test]
fn octet_boundaries() {
    assert_eq!(parse_err("256.1.1.1/24"), "unsupported format: 256.1.1.1/24");
    assert_eq!(parse_err("1.1.1.-1/24"), "unsupported format: 1.1.1.-1/24");
    assert_eq!(parse_ok("255.1.1.0/24").to_text(), "255.1.1.0/24");
}

#[test]
fn malformed_addresses() {
    assert_eq!(parse_err("1.2.3/24"), "unsupported format: 1.2.3/24");
    assert_eq!(parse_err("1.2.3.4.5/24"), "unsupported format: 1.2.3.4.5/24");
    assert_eq!(parse_err("1.2.3./24"), "unsupported format: 1.2.3./24");
    assert_eq!(parse_err(".1.2.3/24"), "unsupported format: .1.2.3/24");
    assert_eq!(parse_err("a.b.c.d/24"), "unsupported format: a.b.c.d/24");
    assert_eq!(parse_err("/24"), "unsupported format: /24");
    assert_eq!(parse_err("☃.1.1.1/24"), "unsupported format: ☃.1.1.1/24");
}

#[test]
fn prefix_checked_before_address() {
    assert_eq!(parse_err("999.1.1.1/99"), "invalid subnetmask range: 99");
}

#[test]
fn leading_zeros_are_accepted_and_stripped() {
    let c = parse_ok("010.001.002.003/08");
    assert_eq!(c.to_text(), "10.1.2.3/8");
    assert_eq!(c.subnetmask(), 8);
}

#[test]
fn scenario_10_0_0_0_8() {
    let c = parse_ok("10.0.0.0/8");
    assert_eq!(c.address().to_be_bytes(), [10, 0, 0, 0]);
    assert_eq!(c.subnetmask(), 8);
    assert_eq!(c.to_text(), "10.0.0.0/8");
}

#[test]
fn scenario_all_ones_32() {
    let c = parse_ok("255.255.255.255/32");
    assert_eq!(c.to_text(), "255.255.255.255/32");
}

#[test]
fn cidr_values_compare_by_value() {
    let a = parse_ok("10.0.0.0/8");
    let b = parse_ok("010.0.0.0/08");
    let c = parse_ok("10.0.0.0/9");
    assert_eq!(a, b);
    assert_ne!(a, c);
}

#[test]
fn error_display_text() {
    let e = match CIDR::parse("10.0.0.0") {
        Ok(_) => panic!("expected an error"),
        Err(e) => e,
    };
    assert_eq!(
        e.to_text(),
        "invalid address notation: cannot find address / subnetmask: 10.0.0.0"
    );
}
