//! Tests of the address value: parsing, rendering, and byte-order
//! conversions.

use cidr4::address::Address;

fn parse_ok(s: &str) -> Address {
    match Address::parse(s) {
        Ok(a) => a,
        Err(e) => panic!("expected {} to parse, got: {}", s, e.0),
    }
}

#[test]
fn big_endian_bytes_follow_text_order() {
    let a = parse_ok("192.168.1.1");
    assert_eq!(a.to_be_bytes(), [192, 168, 1, 1]);
    let back = Address::from_be_bytes([192, 168, 1, 1]);
    assert_eq!(back.to_text(), "192.168.1.1");
    assert_eq!(back, a);
}

#[test]
fn little_endian_bytes_reverse_text_order() {
    let a = parse_ok("192.168.1.1");
    assert_eq!(a.to_le_bytes(), [1, 1, 168, 192]);
    let back = Address::from_le_bytes([1, 1, 168, 192]);
    assert_eq!(back.to_text(), "192.168.1.1");
}

#[test]
fn native_bytes_use_one_of_the_two_orders() {
    let a = parse_ok("1.2.3.4");
    let ne = a.to_ne_bytes();
    assert!(ne == [1, 2, 3, 4] || ne == [4, 3, 2, 1]);
    assert_eq!(Address::from_ne_bytes(ne), a);
}

#[test]
fn byte_order_round_trips() {
    for octets in [[0, 0, 0, 0], [255, 255, 255, 255], [10, 20, 30, 40]] {
        assert_eq!(Address::from_be_bytes(octets).to_be_bytes(), octets);
        assert_eq!(Address::from_le_bytes(octets).to_le_bytes(), octets);
        assert_eq!(Address::from_ne_bytes(octets).to_ne_bytes(), octets);
    }
}

#[test]
fn address_parse_rejects_out_of_range_octets() {
    assert_eq!(
        Address::parse("256.1.1.1").unwrap_err().0,
        "unsupported format: 256.1.1.1"
    );
    assert_eq!(
        Address::parse("1.1.1.-1").unwrap_err().0,
        "unsupported format: 1.1.1.-1"
    );
}

#[test]
fn address_text_round_trip() {
    for s in ["0.0.0.0", "255.255.255.255", "192.168.1.1", "8.8.4.4"] {
        assert_eq!(parse_ok(s).to_text(), s);
    }
}

#[test]
fn dot_notation_blocks() {
    let a = parse_ok("1.2.3.4");
    assert_eq!(a.to_dot_notation(4), "1.2.3.4");
    assert_eq!(a.to_dot_notation(1), "16909060");
    let z = parse_ok("0.0.0.0");
    assert_eq!(z.to_dot_notation(1), "0");
}
