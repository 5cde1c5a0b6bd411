use iptrie::{IpTrie, Ipv4CidrRange, ParseError, cidr2u32range, cidr2u64range, xd};

#[test]
fn xd_parses_dotted_quad() {
    assert_eq!(xd("202.196.224.0/20"), Ok((0xCAC4_E000, 20)));
    assert_eq!(xd("10.1.1.5/32"), Ok((0x0A01_0105, 32)));
    assert_eq!(xd("0.0.0.0/0"), Ok((0, 0)));
    assert_eq!(xd("255.255.255.255/32"), Ok((0xFFFF_FFFF, 32)));
}

#[test]
fn xd_accepts_leading_zeros() {
    assert_eq!(xd("010.001.002.003/08"), Ok((0x0A01_0203, 8)));
    assert_eq!(xd("0000000255.0.0.0/8"), Ok((0xFF00_0000, 8)));
}

#[test]
fn xd_rejects_bad_shape() {
    assert_eq!(xd(""), Err(ParseError::BadOctetCount));
    assert_eq!(xd("1.2.3/8"), Err(ParseError::BadOctetCount));
    assert_eq!(xd("1.2.3.4.5/8"), Err(ParseError::BadOctetCount));
    assert_eq!(xd("1.2.3.4"), Err(ParseError::BadOctetCount));
    assert_eq!(xd("a.2.3.4/8"), Err(ParseError::BadOctetCount));
    assert_eq!(xd("1..3.4/8"), Err(ParseError::BadOctetCount));
    assert_eq!(xd(".1.2.3/8"), Err(ParseError::BadOctetCount));
    assert_eq!(xd("1.2.3.4x/8"), Err(ParseError::BadOctetCount));
}

#[test]
fn xd_rejects_octet_out_of_range() {
    assert_eq!(xd("300.2.3.4/8"), Err(ParseError::OctetOutOfRange));
    assert_eq!(xd("1.2.3.256/8"), Err(ParseError::OctetOutOfRange));
    assert_eq!(xd("999999999999.0.0.0/8"), Err(ParseError::OctetOutOfRange));
}

#[test]
fn xd_rejects_bad_prefix() {
    assert_eq!(xd("1.2.3.4/33"), Err(ParseError::PrefixLenOutOfRange));
    assert_eq!(xd("1.2.3.4/"), Err(ParseError::PrefixLenOutOfRange));
    assert_eq!(xd("1.2.3.4/8x"), Err(ParseError::PrefixLenOutOfRange));
    assert_eq!(xd("1.2.3.4/8/9"), Err(ParseError::PrefixLenOutOfRange));
    assert_eq!(xd("1.2.3.4/4294967296"), Err(ParseError::PrefixLenOutOfRange));
}

#[test]
fn cidr2u32range_values() {
    assert_eq!(cidr2u32range("202.196.224.0/20"), Ok((0xCAC4_E000, 0xCAD4_E000)));
    assert_eq!(cidr2u32range("10.0.0.0/8"), Ok((0x0A00_0000, 0x0A00_0100)));
    assert_eq!(cidr2u32range("0.0.0.0/0"), Ok((0, 1)));
}

#[test]
fn cidr2u32range_wraps_modulo() {
    // 255.255.255.255 + 2^8 wraps around 2^32
    assert_eq!(cidr2u32range("255.255.255.255/8"), Ok((0xFFFF_FFFF, 0xFF)));
    // 0.0.0.0 + 2^32 is exactly 0 modulo 2^32
    assert_eq!(cidr2u32range("0.0.0.0/32"), Ok((0, 0)));
}

#[test]
fn cidr2u32range_propagates_errors() {
    assert_eq!(cidr2u32range("1.2.3/8"), Err(ParseError::BadOctetCount));
    assert_eq!(cidr2u32range("256.2.3.4/8"), Err(ParseError::OctetOutOfRange));
    assert_eq!(cidr2u32range("1.2.3.4/40"), Err(ParseError::PrefixLenOutOfRange));
}

#[test]
fn cidr2u64range_values() {
    assert_eq!(cidr2u64range("202.196.224.0/20"), Ok((0xCAC4_E000u64, 0xCAD4_E000u64)));
    assert_eq!(cidr2u64range("0.0.0.0/32"), Ok((0u64, 0x1_0000_0000u64)));
    assert_eq!(cidr2u64range("255.255.255.255/8"), Ok((0xFFFF_FFFFu64, 0x1_0000_00FFu64)));
    assert_eq!(cidr2u64range("1.2.3/8"), Err(ParseError::BadOctetCount));
}

#[test]
fn parse_builds_validated_range() {
    let c = Ipv4CidrRange::parse("192.168.1.0/24").unwrap();
    assert_eq!(c.ip(), 0xC0A8_0100);
    assert_eq!(c.mask(), 24);
    assert_eq!(Ipv4CidrRange::parse("192.168.1.0/33").unwrap_err(), ParseError::PrefixLenOutOfRange);
    assert_eq!(Ipv4CidrRange::parse("192.168.1/24").unwrap_err(), ParseError::BadOctetCount);
}

#[test]
fn parse_then_insert_round_trip() {
    let mut t: IpTrie<u8> = IpTrie::new();
    let c = Ipv4CidrRange::parse("10.1.0.0/16").unwrap();
    t.add_cidr(c, 8);
    assert_eq!(t.get(0x0A01_FFFF), Some(8));
    assert_eq!(t.get(0x0A02_0000), None);
}
