use std::collections::{BTreeMap, HashMap};

use iptrie::{BTreeMapIpSearcher, HashMapIpSearcher, NodeRecord, generate_cidrs, generate_ips};

fn record(city: &str, latest: bool) -> NodeRecord {
    NodeRecord {
        geo_location: city.to_string(),
        utc: "2024-01-01T00:00:00Z".to_string(),
        is_latest: latest,
    }
}

#[test]
fn hashmap_searcher_appends_in_order() {
    let mut s = HashMapIpSearcher::new();
    assert!(s.query(0x0A00_0001).is_none());
    s.insert(0x0A00_0001, record("Stockholm, Sweden", false));
    s.insert(0x0A00_0001, record("Uppsala, Sweden", true));
    s.insert(0x0B00_0002, record("Oslo, Norway", true));
    let hits = s.query(0x0A00_0001).unwrap();
    assert_eq!(hits.len(), 2);
    assert_eq!(hits[0].geo_location, "Stockholm, Sweden");
    assert!(!hits[0].is_latest);
    assert_eq!(hits[1].geo_location, "Uppsala, Sweden");
    assert!(hits[1].is_latest);
    assert_eq!(s.query(0x0B00_0002).unwrap().len(), 1);
    assert!(s.query(0x0C00_0003).is_none());
}

#[test]
fn hashmap_searcher_from_hashmap() {
    let mut hm: HashMap<u32, Vec<NodeRecord>> = HashMap::new();
    hm.insert(7, vec![record("Lund, Sweden", true)]);
    let s = HashMapIpSearcher::from_hashmap(hm);
    assert_eq!(s.query(7).unwrap()[0].geo_location, "Lund, Sweden");
    assert!(s.query(8).is_none());
}

#[test]
fn hashmap_searcher_queries() {
    let mut s = HashMapIpSearcher::new();
    s.insert(1, record("a", true));
    s.insert(3, record("b", true));
    let qs = vec![1u32, 2, 3];
    let rs = s.queries(&qs);
    assert_eq!(rs.len(), 3);
    assert_eq!(rs[0].unwrap()[0].geo_location, "a");
    assert!(rs[1].is_none());
    assert_eq!(rs[2].unwrap()[0].geo_location, "b");
}

#[test]
fn btreemap_searcher_appends_in_order() {
    let mut s = BTreeMapIpSearcher::new();
    assert!(s.query(42).is_none());
    s.insert(42, record("Malmo, Sweden", false));
    s.insert(42, record("Kiruna, Sweden", true));
    let hits = s.query(42).unwrap();
    assert_eq!(hits.len(), 2);
    assert_eq!(hits[0].geo_location, "Malmo, Sweden");
    assert_eq!(hits[1].geo_location, "Kiruna, Sweden");
    assert!(s.query(41).is_none());
}

#[test]
fn btreemap_searcher_from_btreemap_and_queries() {
    let mut bm: BTreeMap<u32, Vec<NodeRecord>> = BTreeMap::new();
    bm.insert(9, vec![record("Goteborg, Sweden", true)]);
    let s = BTreeMapIpSearcher::from_btreemap(bm);
    let qs = vec![9u32, 10];
    let rs = s.queries(&qs);
    assert_eq!(rs.len(), 2);
    assert_eq!(rs[0].unwrap()[0].geo_location, "Goteborg, Sweden");
    assert!(rs[1].is_none());
}

#[test]
fn generate_ips_length_and_range() {
    let ips = generate_ips(100);
    assert_eq!(ips.len(), 100);
    for ip in &ips {
        assert!(*ip < u32::MAX);
    }
    assert!(generate_ips(0).is_empty());
}

#[test]
fn generate_cidrs_length_and_mask_bounds() {
    let cidrs = generate_cidrs(100);
    assert_eq!(cidrs.len(), 100);
    for c in &cidrs {
        assert!(c.mask() >= 4 && c.mask() < 24);
        assert!(c.ip() < u32::MAX);
    }
}

#[test]
fn generated_cidrs_feed_the_trie() {
    let mut t: iptrie::IpTrie<u32> = iptrie::IpTrie::new();
    let cidrs = generate_cidrs(50);
    let mut i: u32 = 0;
    for c in cidrs {
        t.add_cidr(c, i);
        i += 1;
    }
    // every lookup terminates and returns either a hit or a miss
    for ip in generate_ips(1000) {
        let _ = t.contains_ip(ip);
    }
}
