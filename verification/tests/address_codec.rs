use zkip::address::{ip_to_u32, u32_to_ip, AddressError};

#[test]
fn parses_dotted_quad() {
    assert_eq!(ip_to_u32("8.8.8.8"), Ok(134744072));
    assert_eq!(ip_to_u32("91.113.0.1"), Ok(1534132225));
    assert_eq!(ip_to_u32("0.0.0.0"), Ok(0));
    assert_eq!(ip_to_u32("255.255.255.255"), Ok(u32::MAX));
    assert_eq!(ip_to_u32("1.2.3.4"), Ok((1 << 24) | (2 << 16) | (3 << 8) | 4));
}

#[test]
fn parses_leading_zeros() {
    assert_eq!(ip_to_u32("08.08.08.08"), Ok(134744072));
    assert_eq!(ip_to_u32("001.002.003.004"), Ok((1 << 24) | (2 << 16) | (3 << 8) | 4));
}

#[test]
fn rejects_wrong_octet_count() {
    assert_eq!(ip_to_u32("1.2.3"), Err(AddressError::WrongOctetCount));
    assert_eq!(ip_to_u32("1.2.3.4.5"), Err(AddressError::WrongOctetCount));
    assert_eq!(ip_to_u32(""), Err(AddressError::WrongOctetCount));
    assert_eq!(ip_to_u32("8888"), Err(AddressError::WrongOctetCount));
}

#[test]
fn rejects_bad_octets() {
    assert_eq!(ip_to_u32("256.1.1.1"), Err(AddressError::InvalidOctet));
    assert_eq!(ip_to_u32("1.2.3.999"), Err(AddressError::InvalidOctet));
    assert_eq!(ip_to_u32("a.b.c.d"), Err(AddressError::InvalidOctet));
    assert_eq!(ip_to_u32("1..2.3"), Err(AddressError::InvalidOctet));
    assert_eq!(ip_to_u32(".1.2.3"), Err(AddressError::InvalidOctet));
    assert_eq!(ip_to_u32("1.2.3."), Err(AddressError::InvalidOctet));
    assert_eq!(ip_to_u32("1.2.3.4 "), Err(AddressError::InvalidOctet));
    assert_eq!(ip_to_u32("-1.2.3.4"), Err(AddressError::InvalidOctet));
    assert_eq!(ip_to_u32("99999999999999999999.1.1.1"), Err(AddressError::InvalidOctet));
}

#[test]
fn formats_dotted_quad() {
    assert_eq!(u32_to_ip(134744072), "8.8.8.8");
    assert_eq!(u32_to_ip(1534132225), "91.113.0.1");
    assert_eq!(u32_to_ip(0), "0.0.0.0");
    assert_eq!(u32_to_ip(u32::MAX), "255.255.255.255");
}

#[test]
fn address_round_trip() {
    for ip in [0u32, 1, 255, 256, 134744072, 1534132224, 1534140415, u32::MAX] {
        let text = u32_to_ip(ip);
        assert_eq!(ip_to_u32(&text), Ok(ip));
    }
    for text in ["8.8.8.8", "0.0.0.0", "255.255.255.255", "91.113.0.1"] {
        let ip = ip_to_u32(text).unwrap();
        assert_eq!(u32_to_ip(ip), text);
    }
}
