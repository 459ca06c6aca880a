use proxmox_tui_installer::CidrAddress;
use proxmox_tui_installer::CidrAddressParseError;
use proxmox_tui_installer::IntParseErrorKind;
use proxmox_tui_installer::IpAddr;
use proxmox_tui_installer::Ipv4Addr;
use proxmox_tui_installer::Ipv6Addr;

fn v4(a: u8, b: u8, c: u8, d: u8) -> IpAddr {
    IpAddr::V4(Ipv4Addr::new(a, b, c, d))
}

#[test]
fn parse_and_format_round_trip() {
    let cases = [
        "0.0.0.0/0",
        "192.168.1.5/24",
        "255.255.255.255/32",
        "10.0.0.1/8",
        "1.2.3.4/32",
    ];
    for s in cases {
        let cidr = CidrAddress::from_str(s).unwrap();
        assert_eq!(cidr.to_text(), s);
    }
}

#[test]
fn parse_yields_the_address_and_mask() {
    let cidr = CidrAddress::from_str("192.168.1.5/24").unwrap();
    assert_eq!(cidr.addr(), v4(192, 168, 1, 5));
    assert_eq!(cidr.mask(), 24);
}

#[test]
fn new_keeps_address_and_mask() {
    let cidr = CidrAddress::new(v4(10, 0, 0, 1), 16).unwrap();
    assert_eq!(cidr.addr(), v4(10, 0, 0, 1));
    assert_eq!(cidr.mask(), 16);
    assert_eq!(cidr.to_text(), "10.0.0.1/16");
}

#[test]
fn new_rejects_masks_above_32() {
    for mask in [33, 64, 128, usize::MAX] {
        let r = CidrAddress::new(v4(10, 0, 0, 1), mask);
        assert_eq!(r.unwrap_err(), CidrAddressParseError::InvalidMask(None));
    }
}

#[test]
fn parse_rejects_masks_above_32() {
    for s in ["10.0.0.1/33", "10.0.0.1/64", "not-an-ip/100"] {
        let r = CidrAddress::from_str(s);
        assert_eq!(r.unwrap_err(), CidrAddressParseError::InvalidMask(None));
    }
}

#[test]
fn parse_requires_a_delimiter() {
    for s in ["", "10.0.0.1", "garbage", "2001:db8::1", "   "] {
        let r = CidrAddress::from_str(s);
        assert_eq!(r.unwrap_err(), CidrAddressParseError::NoDelimiter);
    }
}

#[test]
fn parse_rejects_a_malformed_address() {
    let r = CidrAddress::from_str("not-an-ip/24");
    assert!(matches!(r, Err(CidrAddressParseError::InvalidAddr(_))));
}

#[test]
fn parse_rejects_octets_out_of_range() {
    let r = CidrAddress::from_str("256.0.0.1/24");
    assert!(matches!(r, Err(CidrAddressParseError::InvalidAddr(_))));
}

#[test]
fn parse_rejects_an_unparsable_mask() {
    let r = CidrAddress::from_str("10.0.0.1/abc").unwrap_err();
    match r {
        CidrAddressParseError::InvalidMask(Some(e)) => {
            assert_eq!(e.kind, IntParseErrorKind::InvalidDigit);
        }
        other => panic!("unexpected error: {:?}", other),
    }
}

#[test]
fn parse_rejects_an_empty_mask() {
    let r = CidrAddress::from_str("10.0.0.1/").unwrap_err();
    match r {
        CidrAddressParseError::InvalidMask(Some(e)) => {
            assert_eq!(e.kind, IntParseErrorKind::Empty);
        }
        other => panic!("unexpected error: {:?}", other),
    }
}

#[test]
fn parse_rejects_an_oversized_mask_number() {
    let r = CidrAddress::from_str("10.0.0.1/99999999999999999999999999").unwrap_err();
    match r {
        CidrAddressParseError::InvalidMask(Some(e)) => {
            assert_eq!(e.kind, IntParseErrorKind::TooLarge);
        }
        other => panic!("unexpected error: {:?}", other),
    }
}

#[test]
fn mask_scan_reports_the_first_failure() {
    // The digits overflow before the bad character is reached ...
    let r = CidrAddress::from_str("10.0.0.1/99999999999999999999x").unwrap_err();
    match r {
        CidrAddressParseError::InvalidMask(Some(e)) => {
            assert_eq!(e.kind, IntParseErrorKind::TooLarge);
        }
        other => panic!("unexpected error: {:?}", other),
    }
    // ... and a bad character before any overflow is the failure.
    let r = CidrAddress::from_str("10.0.0.1/12x34").unwrap_err();
    match r {
        CidrAddressParseError::InvalidMask(Some(e)) => {
            assert_eq!(e.kind, IntParseErrorKind::InvalidDigit);
        }
        other => panic!("unexpected error: {:?}", other),
    }
}

#[test]
fn parse_checks_the_mask_before_the_address() {
    // The mask is read first, so a bad address with a bad mask
    // reports the mask.
    let r = CidrAddress::from_str("not-an-ip/abc").unwrap_err();
    assert!(matches!(r, CidrAddressParseError::InvalidMask(Some(_))));
}

#[test]
fn parse_splits_at_the_first_slash() {
    let r = CidrAddress::from_str("10.0.0.1/24/7").unwrap_err();
    assert!(matches!(r, CidrAddressParseError::InvalidMask(Some(_))));
}

#[test]
fn parse_accepts_a_leading_plus_in_the_mask() {
    let cidr = CidrAddress::from_str("10.0.0.1/+24").unwrap();
    assert_eq!(cidr.mask(), 24);
}

#[test]
fn parse_rejects_leading_zeros_in_octets() {
    let r = CidrAddress::from_str("10.0.0.01/24");
    assert!(matches!(r, Err(CidrAddressParseError::InvalidAddr(_))));
}

#[test]
fn ipv6_round_trip() {
    let cases = ["2001:db8::1/32", "::1/0", "::/0", "1::8/32", "fe80::/10"];
    for s in cases {
        let cidr = CidrAddress::from_str(s).unwrap();
        assert_eq!(cidr.to_text(), s);
    }
    let cidr = CidrAddress::from_str("2001:db8::1/32").unwrap();
    assert_eq!(
        cidr.addr(),
        IpAddr::V6(Ipv6Addr::new(0x2001, 0xdb8, 0, 0, 0, 0, 0, 1))
    );
}

#[test]
fn ipv6_mask_is_capped_at_32_too() {
    let r = CidrAddress::from_str("2001:db8::1/64");
    assert_eq!(r.unwrap_err(), CidrAddressParseError::InvalidMask(None));
}

#[test]
fn ipv6_full_form_renders_compressed() {
    let cidr = CidrAddress::from_str("2001:db8:0:0:0:0:0:1/32").unwrap();
    assert_eq!(cidr.to_text(), "2001:db8::1/32");
}

#[test]
fn ipv6_accepts_zero_padding_and_uppercase() {
    for s in ["2001:0db8:0:0:0:0:0:1/32", "2001:DB8::1/32", "2001:dB8::0001/32"] {
        let cidr = CidrAddress::from_str(s).unwrap();
        assert_eq!(
            cidr.addr(),
            IpAddr::V6(Ipv6Addr::new(0x2001, 0xdb8, 0, 0, 0, 0, 0, 1))
        );
    }
}

#[test]
fn ipv6_double_colon_stands_for_at_least_one_group() {
    // Seven groups then `::` is valid (one zero group) ...
    let cidr = CidrAddress::from_str("1:2:3:4:5:6:7::/0").unwrap();
    assert_eq!(
        cidr.addr(),
        IpAddr::V6(Ipv6Addr::new(1, 2, 3, 4, 5, 6, 7, 0))
    );
    // ... but eight groups leave no room for it.
    let r = CidrAddress::from_str("1:2:3:4:5:6:7:8::/0");
    assert!(matches!(r, Err(CidrAddressParseError::InvalidAddr(_))));
}

#[test]
fn ipv6_rejects_malformed_literals() {
    for s in [
        ":::/0",
        "1::2::3/0",
        "::1:2:3:4:5:6:7:8/0",
        "12345::/0",
        "1:2:3/0",
        "1:2:3:4:5:6:7/0",
        ":1::2/0",
        "1.2.3.4::/0",
        "::ffff:01.2.3.4/0",
        "::ffff:1.2.3.400/0",
    ] {
        let r = CidrAddress::from_str(s);
        assert!(matches!(r, Err(CidrAddressParseError::InvalidAddr(_))), "{}", s);
    }
}

#[test]
fn ipv6_segments_allow_leading_zeros_where_octets_do_not() {
    // "08" is a fine hexadecimal segment ...
    let cidr = CidrAddress::from_str("1:2:3:4:5:6:7:08/0").unwrap();
    assert_eq!(
        cidr.addr(),
        IpAddr::V6(Ipv6Addr::new(1, 2, 3, 4, 5, 6, 7, 8))
    );
    // ... but not a decimal octet.
    let r = CidrAddress::from_str("1.2.3.08/0");
    assert!(matches!(r, Err(CidrAddressParseError::InvalidAddr(_))));
}

#[test]
fn ipv6_embedded_ipv4_forms() {
    let cidr = CidrAddress::from_str("::ffff:192.168.0.1/32").unwrap();
    assert_eq!(
        cidr.addr(),
        IpAddr::V6(Ipv6Addr::new(0, 0, 0, 0, 0, 0xffff, 0xc0a8, 0x0001))
    );
    // The IPv4-mapped form is also how such an address renders.
    assert_eq!(cidr.to_text(), "::ffff:192.168.0.1/32");
    let same = CidrAddress::from_str("::ffff:c0a8:1/32").unwrap();
    assert_eq!(same.to_text(), "::ffff:192.168.0.1/32");
    // An embedded IPv4 part may also complete the eight groups in front.
    let head = CidrAddress::from_str("1:2:3:4:5:6:7.8.9.10/0").unwrap();
    assert_eq!(
        head.addr(),
        IpAddr::V6(Ipv6Addr::new(1, 2, 3, 4, 5, 6, 0x0708, 0x090a))
    );
    assert_eq!(head.to_text(), "1:2:3:4:5:6:708:90a/0");
}

#[test]
fn ipv6_compresses_the_leftmost_longest_zero_run() {
    // The longer run wins ...
    let a = CidrAddress::from_str("1:0:0:2:0:0:0:3/0").unwrap();
    assert_eq!(a.to_text(), "1:0:0:2::3/0");
    // ... and on a tie the leftmost does.
    let b = CidrAddress::from_str("1:0:0:2:0:0:3:4/0").unwrap();
    assert_eq!(b.to_text(), "1::2:0:0:3:4/0");
    // A lone zero group is not compressed.
    let c = CidrAddress::from_str("1:2:3:4:5:6:0:8/0").unwrap();
    assert_eq!(c.to_text(), "1:2:3:4:5:6:0:8/0");
}

#[test]
fn ip_to_text_renders_both_families() {
    assert_eq!(v4(0, 0, 0, 0).to_text(), "0.0.0.0");
    assert_eq!(v4(255, 0, 10, 1).to_text(), "255.0.10.1");
    let six = IpAddr::V6(Ipv6Addr::new(0xffff, 0, 1, 0xabc, 0xdef, 10, 16, 255));
    assert_eq!(six.to_text(), "ffff:0:1:abc:def:a:10:ff");
}
