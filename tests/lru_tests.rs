use dnsforward::cache::{Key, SubKey, Value};
use dnsforward::dns::{Name, RRData, RCODE_NO_ERROR, RRC_IN, RRK_A, RRK_CNAME};
use dnsforward::lru::LruCache;
use dnsforward::time::Instant;

fn key(owner: &str, kind: u16, sub: SubKey) -> Key {
    Key { name: owner.parse::<Name>().unwrap(), rr_kind: kind, rr_class: RRC_IN, sub }
}

fn value(ttl: u32) -> Value {
    Value {
        ts: Instant::from_nanos(0),
        ttl_secs: ttl,
        response_code: RCODE_NO_ERROR,
        rr_data: None,
        soa: None,
    }
}

fn addr(a: u32) -> SubKey {
    SubKey::RRData(RRData::Ipv4Addr(a))
}

#[test]
fn insert_returns_prior_value() {
    let mut l = LruCache::new(4);
    assert_eq!(l.insert(key("a.x", RRK_A, addr(1)), value(10)), None);
    assert_eq!(l.insert(key("a.x", RRK_A, addr(1)), value(20)), Some(value(10)));
    assert_eq!(l.len(), 1);
    assert_eq!(l.capacity_limit(), 4);
}

#[test]
fn range_is_in_sub_key_order() {
    let mut l = LruCache::new(8);
    l.insert(key("a.x", RRK_A, addr(3)), value(3));
    l.insert(key("b.x", RRK_A, addr(9)), value(9));
    l.insert(key("a.x", RRK_A, addr(1)), value(1));
    l.insert(key("a.x", RRK_CNAME, SubKey::Unique), value(7));
    l.insert(key("a.x", RRK_A, addr(2)), value(2));
    let r = l.range(&"a.x".parse().unwrap(), RRK_A, RRC_IN, false);
    assert_eq!(r, vec![(addr(1), value(1)), (addr(2), value(2)), (addr(3), value(3))]);
}

#[test]
fn full_store_evicts_front_and_touch_moves_to_back() {
    let mut l = LruCache::new(3);
    l.insert(key("a.x", RRK_A, addr(1)), value(1));
    l.insert(key("b.x", RRK_A, addr(1)), value(1));
    l.insert(key("c.x", RRK_A, addr(1)), value(1));
    // touching `a` leaves `b` least recently used
    assert_eq!(l.range(&"a.x".parse().unwrap(), RRK_A, RRC_IN, true).len(), 1);
    l.insert(key("d.x", RRK_A, addr(1)), value(1));
    assert_eq!(l.len(), 3);
    assert!(l.range(&"b.x".parse().unwrap(), RRK_A, RRC_IN, false).is_empty());
    assert_eq!(l.range(&"a.x".parse().unwrap(), RRK_A, RRC_IN, false).len(), 1);
    // a read without touch does not protect `c`
    assert_eq!(l.range(&"c.x".parse().unwrap(), RRK_A, RRC_IN, false).len(), 1);
    l.insert(key("e.x", RRK_A, addr(1)), value(1));
    assert!(l.range(&"c.x".parse().unwrap(), RRK_A, RRC_IN, false).is_empty());
}

#[test]
fn remove_range_and_remove() {
    let mut l = LruCache::new(8);
    l.insert(key("a.x", RRK_A, addr(1)), value(1));
    l.insert(key("a.x", RRK_A, addr(2)), value(2));
    l.insert(key("a.x", RRK_CNAME, SubKey::Unique), value(3));
    l.remove_range(&"a.x".parse().unwrap(), RRK_A, RRC_IN);
    assert_eq!(l.len(), 1);
    assert!(l.range(&"a.x".parse().unwrap(), RRK_A, RRC_IN, false).is_empty());
    l.remove(&key("a.x", RRK_CNAME, SubKey::Unique));
    assert_eq!(l.len(), 0);
    // removing what is absent changes nothing
    l.remove(&key("a.x", RRK_CNAME, SubKey::Unique));
    assert_eq!(l.len(), 0);
}
