use irontraffic_http::addr_text::parse_addr;
use irontraffic_http::cidr::IpCidr;
use irontraffic_http::net::IpAddr;

fn ip(s: &str) -> IpAddr {
    parse_addr(s.as_bytes()).expect("valid address in a test fixture")
}

#[test]
fn prefix_bounds() {
    let v4 = IpAddr::v4(10, 0, 0, 0);
    let v6 = IpAddr::v6([0x2001, 0xdb8, 0, 0, 0, 0, 0, 0]);

    for len in [0_u8, 1, 31, 32] {
        assert!(
            IpCidr::new(v4, len).is_some(),
            "IPv4 prefix length {len} must be accepted"
        );
    }
    assert!(
        IpCidr::new(v4, 33).is_none(),
        "IPv4 prefix length 33 must be refused"
    );

    for len in [0_u8, 1, 127, 128] {
        assert!(
            IpCidr::new(v6, len).is_some(),
            "IPv6 prefix length {len} must be accepted"
        );
    }
    assert!(
        IpCidr::new(v6, 129).is_none(),
        "IPv6 prefix length 129 must be refused"
    );

    let narrow = IpCidr::new(v4, 8).expect("prefix length 8 must be accepted");
    let wide = IpCidr::new(v4, 24).expect("prefix length 24 must be accepted");
    assert_eq!(narrow.prefix_len(), 8);
    assert_eq!(wide.prefix_len(), 24);
}

#[test]
fn contains_boundaries() {
    let quad = |a: u8, b: u8, c: u8, d: u8| IpAddr::v4(a, b, c, d);
    let ten_slash_8 = IpCidr::new(quad(10, 0, 0, 0), 8).expect("10.0.0.0/8 must be valid");
    assert!(ten_slash_8.contains(quad(10, 0, 0, 0)));
    assert!(ten_slash_8.contains(quad(10, 255, 255, 255)));
    assert!(ten_slash_8.contains(quad(10, 1, 2, 3)));
    assert!(!ten_slash_8.contains(quad(9, 255, 255, 255)));
    assert!(!ten_slash_8.contains(quad(11, 0, 0, 0)));

    let ten_slash_32 = IpCidr::new(quad(10, 0, 0, 0), 32).expect("10.0.0.0/32 must be valid");
    assert!(ten_slash_32.contains(quad(10, 0, 0, 0)));
    assert!(!ten_slash_32.contains(quad(10, 0, 0, 1)));
    assert!(!ten_slash_32.contains(quad(10, 0, 0, 255)));

    let v6 = |s: &str| -> IpAddr { ip(s) };
    let db8_slash_32 = IpCidr::new(v6("2001:db8::"), 32).expect("2001:db8::/32 must be valid");
    assert!(db8_slash_32.contains(v6("2001:db8::1")));
    assert!(!db8_slash_32.contains(v6("2001:db9::1")));

    let ten_slash_7 = IpCidr::new(quad(10, 0, 0, 0), 7).expect("10.0.0.0/7 must be valid");
    assert!(ten_slash_7.contains(quad(11, 0, 0, 1)));
    assert!(!ten_slash_7.contains(quad(12, 0, 0, 1)));
}

#[test]
fn families_do_not_mix() {
    let v4_any = IpCidr::new(IpAddr::v4(0, 0, 0, 0), 0)
        .expect("0.0.0.0/0 must be valid");
    let v6_any = IpCidr::new(IpAddr::v6([0; 8]), 0)
        .expect("::/0 must be valid");

    let v4_addr = IpAddr::v4(1, 2, 3, 4);
    let v6_addr = IpAddr::v6([0, 0, 0, 0, 0, 0, 0, 1]);

    assert!(
        !v6_any.contains(v4_addr),
        "::/0 must not contain an IPv4 address"
    );
    assert!(
        !v4_any.contains(v6_addr),
        "0.0.0.0/0 must not contain an IPv6 address"
    );

    let mapped: IpAddr = ip("::ffff:1.2.3.4");
    let v4_slash_24 = IpCidr::new(IpAddr::v4(1, 2, 3, 0), 24)
        .expect("1.2.3.0/24 must be valid");
    assert!(
        !v4_slash_24.contains(mapped),
        "an IPv4-mapped IPv6 address must not be contained by an IPv4 prefix"
    );
}
