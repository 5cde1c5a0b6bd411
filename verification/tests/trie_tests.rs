use iptrie::{IpTrie, IpTrieNode, Ipv4CidrRange, RangeError};

#[test]
fn longest_prefix_wins() {
    let mut t: IpTrie<char> = IpTrie::new();
    t.add_ip_and_mask(0x0A00_0000, 8, 'A'); // 10.0.0.0/8
    t.add_ip_and_mask(0x0A01_0000, 16, 'B'); // 10.1.0.0/16
    t.add_ip_and_mask(0x0A01_0100, 24, 'C'); // 10.1.1.0/24
    assert_eq!(t.get(0x0A01_0105), Some('C')); // 10.1.1.5
    assert_eq!(t.get(0x0A01_0205), Some('B')); // 10.1.2.5
    assert_eq!(t.get(0x0A02_0000), Some('A')); // 10.2.0.0
    assert_eq!(t.get(0x0B00_0000), None); // 11.0.0.0
}

#[test]
fn insertion_order_does_not_matter() {
    let mut t: IpTrie<char> = IpTrie::new();
    t.add_ip_and_mask(0x0A01_0100, 24, 'C');
    t.add_ip_and_mask(0x0A00_0000, 8, 'A');
    t.add_ip_and_mask(0x0A01_0000, 16, 'B');
    assert_eq!(t.get(0x0A01_0105), Some('C'));
    assert_eq!(t.get(0x0A01_0205), Some('B'));
    assert_eq!(t.get(0x0A02_0000), Some('A'));
    assert_eq!(t.get(0x0B00_0000), None);
}

#[test]
fn default_route() {
    let mut t: IpTrie<u32> = IpTrie::new();
    t.add_ip_and_mask(0, 0, 99);
    assert_eq!(t.get(0x0000_0000), Some(99));
    assert_eq!(t.get(0xFFFF_FFFF), Some(99));
    assert_eq!(t.get(0x0A01_0105), Some(99));
    t.add_ip_and_mask(0x0A00_0000, 8, 1);
    assert_eq!(t.get(0x0A01_0105), Some(1)); // overridden where covered
    assert_eq!(t.get(0x0B00_0000), Some(99)); // default elsewhere
    assert!(t.contains_ip(0xDEAD_BEEF));
}

#[test]
fn insert_idempotent() {
    let mut once: IpTrie<u8> = IpTrie::new();
    once.add_ip_and_mask(0x0A00_0000, 8, 7);
    let mut twice: IpTrie<u8> = IpTrie::new();
    twice.add_ip_and_mask(0x0A00_0000, 8, 7);
    twice.add_ip_and_mask(0x0A00_0000, 8, 7);
    for a in [0x0A00_0001u32, 0x0AFF_FFFF, 0x0B00_0000, 0, 0xFFFF_FFFF] {
        assert_eq!(once.get(a), twice.get(a));
        assert_eq!(once.contains_ip(a), twice.contains_ip(a));
    }
}

#[test]
fn insert_overwrites() {
    let mut t: IpTrie<u8> = IpTrie::new();
    t.add_ip_and_mask(0x0A00_0000, 8, 1);
    t.add_ip_and_mask(0x0A00_0000, 8, 2);
    assert_eq!(t.get(0x0A00_0000), Some(2));
    assert_eq!(t.get(0x0A01_0105), Some(2));
    assert_eq!(t.get(0x0B00_0000), None);
}

#[test]
fn absent_lookups() {
    let t: IpTrie<u8> = IpTrie::new();
    assert_eq!(t.get(0), None);
    assert_eq!(t.get(0xFFFF_FFFF), None);
    assert!(!t.contains_ip(0x0A00_0001));
    let mut u: IpTrie<u8> = IpTrie::new();
    u.add_ip_and_mask(0x0A00_0000, 8, 1);
    assert_eq!(u.get(0x0B00_0000), None);
    assert!(!u.contains_ip(0xB000_0000));
}

#[test]
fn add_cidr_normalizes_host_bits() {
    let mut t: IpTrie<u8> = IpTrie::new();
    // base address carries set bits beyond the /16 prefix
    t.add_cidr(Ipv4CidrRange::new(0x0A01_FFFF, 16), 5);
    assert_eq!(t.get(0x0A01_0000), Some(5));
    assert_eq!(t.get(0x0A01_ABCD), Some(5));
    assert_eq!(t.get(0x0A02_0000), None);
}

#[test]
fn add_cidr_matches_add_ip_and_mask() {
    let mut a: IpTrie<u8> = IpTrie::new();
    a.add_cidr(Ipv4CidrRange::new(0xC0A8_0100, 24), 9); // 192.168.1.0/24
    let mut b: IpTrie<u8> = IpTrie::new();
    b.add_ip_and_mask(0xC0A8_0100, 24, 9);
    for q in [0xC0A8_0101u32, 0xC0A8_01FF, 0xC0A8_0200, 0] {
        assert_eq!(a.get(q), b.get(q));
    }
}

#[test]
fn to_mask_edges() {
    assert_eq!(Ipv4CidrRange::new(0, 0).to_mask(), 0);
    assert_eq!(Ipv4CidrRange::new(0, 32).to_mask(), 0xFFFF_FFFF);
    assert_eq!(Ipv4CidrRange::new(0, 8).to_mask(), 0xFF00_0000);
    assert_eq!(Ipv4CidrRange::new(0, 20).to_mask(), 0xFFFF_F000);
    assert_eq!(Ipv4CidrRange::new(0, 1).to_mask(), 0x8000_0000);
    assert_eq!(Ipv4CidrRange::new(0, 31).to_mask(), 0xFFFF_FFFE);
}

#[test]
fn cidr_range_accessors() {
    let c = Ipv4CidrRange::new(0x0102_0304, 12);
    assert_eq!(c.ip(), 0x0102_0304);
    assert_eq!(c.mask(), 12);
}

#[test]
fn try_new_checks_prefix_len() {
    let ok = Ipv4CidrRange::try_new(1, 32);
    assert!(matches!(ok, Ok(ref c) if c.ip() == 1 && c.mask() == 32));
    let err = Ipv4CidrRange::try_new(1, 33);
    assert!(matches!(err, Err(RangeError::PrefixLenTooLong)));
}

#[test]
fn node_level_insert_and_get() {
    let mut n: IpTrieNode<u8> = IpTrieNode::new();
    n.insert(0x8000_0000, 1, 7); // the single-bit prefix "1"
    assert_eq!(n.get(0xFFFF_FFFF), Some(7));
    assert_eq!(n.get(0x8000_0000), Some(7));
    assert_eq!(n.get(0x7FFF_FFFF), None);
    assert!(n.contains(0x9000_0000));
    assert!(!n.contains(0x1000_0000));
}

#[test]
fn node_full_depth() {
    let mut n: IpTrieNode<u8> = IpTrieNode::empty();
    n.insert(0x0A01_0105, 32, 3); // exact host route
    assert_eq!(n.get(0x0A01_0105), Some(3));
    assert_eq!(n.get(0x0A01_0104), None);
}

#[test]
fn node_default_is_empty() {
    let n: IpTrieNode<u8> = IpTrieNode::default();
    assert_eq!(n.get(0), None);
    assert!(!n.contains(0xFFFF_FFFF));
}
