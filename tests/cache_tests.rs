use dnsforward::cache::{sub_less, Cache, InsertError, Item, Key, SubKey};
use dnsforward::dns::{
    Name, RRData, ResourceRecord, RCODE_NO_ERROR, RCODE_NX_DOMAIN, RCODE_REFUSED,
    RCODE_SERVER_FAILURE, RRC_IN, RRK_A, RRK_AAAA, RRK_CNAME, RRK_NS,
};
use dnsforward::time::{Duration, Instant};

const T: u64 = 1_000_000_000_000;

fn name(s: &str) -> Name {
    s.parse().unwrap()
}

fn at(secs: u64) -> Instant {
    Instant::from_nanos(T).plus_secs(secs)
}

fn record(owner: &str, kind: u16, ttl: u32, data: RRData) -> ResourceRecord {
    ResourceRecord { name: name(owner), kind, class: RRC_IN, ttl_secs: ttl, data }
}

fn ipv4(a: u8, b: u8, c: u8, d: u8) -> RRData {
    RRData::Ipv4Addr(u32::from_be_bytes([a, b, c, d]))
}

fn cache() -> Cache {
    Cache::new(100, 86400, 0, 0, 0, Duration::from_secs(0), 5)
}

#[test]
fn key_ordering() {
    fn key(sub: SubKey) -> Key {
        Key { name: ".".parse().unwrap(), rr_kind: 0, rr_class: 0, sub }
    }

    let data = [
        SubKey::First,
        SubKey::Unique,
        SubKey::RRData(RRData::Name("abc.def".parse().unwrap())),
        SubKey::RRData(RRData::Ipv4Addr(0)),
        SubKey::RRData(RRData::Ipv6Addr(0)),
    ];
    for v in data {
        assert!(sub_less(&v, &SubKey::Last));
        assert!(key(v).less(&key(SubKey::Last)));
    }
}

#[test]
fn key_order_by_name_kind_class() {
    let k = |n: &str, kind: u16, class: u16| Key { name: name(n), rr_kind: kind, rr_class: class, sub: SubKey::Unique };
    assert!(k("a.x", 5, 1).less(&k("b.x", 1, 1)));
    assert!(k("a.x", 1, 2).less(&k("a.x", 5, 1)));
    assert!(k("a.x", 1, 1).less(&k("a.x", 1, 2)));
    assert!(!k("a.x", 1, 1).less(&k("a.x", 1, 1)));
}

#[test]
fn sub_key_order_of_record_data() {
    let v4 = SubKey::RRData(ipv4(9, 9, 9, 9));
    let v6 = SubKey::RRData(RRData::Ipv6Addr(0));
    let nm = SubKey::RRData(RRData::Name(name("a.b")));
    assert!(sub_less(&SubKey::First, &SubKey::Unique));
    assert!(sub_less(&SubKey::Unique, &v4));
    assert!(sub_less(&v4, &v6));
    assert!(sub_less(&v6, &nm));
    assert!(!sub_less(&nm, &v4));
    assert!(!sub_less(&v4, &v4));
}

#[test]
fn simple_positive_hit() {
    let mut c = cache();
    let rr = record("example.com", RRK_A, 300, ipv4(1, 2, 3, 4));
    c.insert(name("example.com"), RRK_A, RRC_IN, 300, at(0), Item::Positive(rr)).unwrap();
    let got = c.get(&name("example.com"), RRK_A, RRC_IN, at(100), false);
    assert_eq!(got, vec![Item::Positive(record("example.com", RRK_A, 200, ipv4(1, 2, 3, 4)))]);
}

#[test]
fn cname_clobbers_address() {
    let mut c = cache();
    c.insert(
        name("alias.x"),
        RRK_A,
        RRC_IN,
        60,
        at(0),
        Item::Positive(record("alias.x", RRK_A, 60, ipv4(9, 9, 9, 9))),
    )
    .unwrap();
    c.insert(
        name("alias.x"),
        RRK_CNAME,
        RRC_IN,
        60,
        at(0),
        Item::Positive(record("alias.x", RRK_CNAME, 60, RRData::Name(name("target.x")))),
    )
    .unwrap();
    assert_eq!(c.get(&name("alias.x"), RRK_A, RRC_IN, at(0), false), vec![]);
    assert_eq!(
        c.get(&name("alias.x"), RRK_CNAME, RRC_IN, at(0), false),
        vec![Item::Positive(record("alias.x", RRK_CNAME, 60, RRData::Name(name("target.x"))))]
    );
}

#[test]
fn address_clobbers_cname() {
    let mut c = cache();
    c.insert(
        name("alias.x"),
        RRK_CNAME,
        RRC_IN,
        60,
        at(0),
        Item::Positive(record("alias.x", RRK_CNAME, 60, RRData::Name(name("target.x")))),
    )
    .unwrap();
    c.insert(
        name("alias.x"),
        RRK_AAAA,
        RRC_IN,
        60,
        at(0),
        Item::Positive(record("alias.x", RRK_AAAA, 60, RRData::Ipv6Addr(1))),
    )
    .unwrap();
    assert_eq!(c.get(&name("alias.x"), RRK_CNAME, RRC_IN, at(0), false), vec![]);
    assert_eq!(c.get(&name("alias.x"), RRK_AAAA, RRC_IN, at(0), false).len(), 1);
}

#[test]
fn stale_serve() {
    let mut c = Cache::new(100, 86400, 0, 0, 0, Duration::from_secs(2), 7);
    let rr = record("s.example", RRK_A, 10, ipv4(5, 6, 7, 8));
    c.insert(name("s.example"), RRK_A, RRC_IN, 10, at(0), Item::Positive(rr)).unwrap();
    assert_eq!(c.get(&name("s.example"), RRK_A, RRC_IN, at(11), false), vec![]);
    assert_eq!(
        c.get(&name("s.example"), RRK_A, RRC_IN, at(11), true),
        vec![Item::Positive(record("s.example", RRK_A, 7, ipv4(5, 6, 7, 8)))]
    );
    // past the staleness window even a stale read returns nothing
    assert_eq!(c.get(&name("s.example"), RRK_A, RRC_IN, at(12), true), vec![]);
}

#[test]
fn zero_ttl_is_not_cached() {
    let mut c = cache();
    let rr = record("z.example", RRK_A, 0, ipv4(1, 1, 1, 1));
    assert_eq!(c.insert(name("z.example"), RRK_A, RRC_IN, 0, at(0), Item::Positive(rr)), Ok(()));
    assert_eq!(c.len(), 0);
    assert_eq!(c.get(&name("z.example"), RRK_A, RRC_IN, at(0), true), vec![]);
}

#[test]
fn ttl_is_clamped_to_floor_and_max() {
    let mut c = Cache::new(100, 1000, 60, 5, 300, Duration::from_secs(0), 5);
    c.insert(
        name("low.example"),
        RRK_A,
        RRC_IN,
        5,
        at(0),
        Item::Positive(record("low.example", RRK_A, 5, ipv4(1, 1, 1, 1))),
    )
    .unwrap();
    c.insert(
        name("high.example"),
        RRK_A,
        RRC_IN,
        100000,
        at(0),
        Item::Positive(record("high.example", RRK_A, 100000, ipv4(2, 2, 2, 2))),
    )
    .unwrap();
    assert_eq!(
        c.get(&name("low.example"), RRK_A, RRC_IN, at(0), false),
        vec![Item::Positive(record("low.example", RRK_A, 60, ipv4(1, 1, 1, 1)))]
    );
    assert_eq!(
        c.get(&name("high.example"), RRK_A, RRC_IN, at(0), false),
        vec![Item::Positive(record("high.example", RRK_A, 1000, ipv4(2, 2, 2, 2)))]
    );
    // a zero TTL is raised to the floor, so a failure is kept briefly
    c.insert(
        name("fail.example"),
        RRK_A,
        RRC_IN,
        0,
        at(0),
        Item::Negative { response_code: RCODE_SERVER_FAILURE, soa: None },
    )
    .unwrap();
    assert_eq!(
        c.get(&name("fail.example"), RRK_A, RRC_IN, at(4), false),
        vec![Item::Negative { response_code: RCODE_SERVER_FAILURE, soa: None }]
    );
    assert_eq!(c.get(&name("fail.example"), RRK_A, RRC_IN, at(5), false), vec![]);
}

#[test]
fn record_set_is_sorted_and_negative_stands_alone() {
    let mut c = cache();
    for d in [ipv4(9, 9, 9, 9), ipv4(1, 1, 1, 1), ipv4(5, 5, 5, 5)] {
        c.insert(name("set.example"), RRK_A, RRC_IN, 60, at(0), Item::Positive(record("set.example", RRK_A, 60, d)))
            .unwrap();
    }
    assert_eq!(
        c.get(&name("set.example"), RRK_A, RRC_IN, at(0), false),
        vec![
            Item::Positive(record("set.example", RRK_A, 60, ipv4(1, 1, 1, 1))),
            Item::Positive(record("set.example", RRK_A, 60, ipv4(5, 5, 5, 5))),
            Item::Positive(record("set.example", RRK_A, 60, ipv4(9, 9, 9, 9))),
        ]
    );
    c.insert(
        name("set.example"),
        RRK_A,
        RRC_IN,
        60,
        at(0),
        Item::Negative { response_code: RCODE_NX_DOMAIN, soa: Some(name("example")) },
    )
    .unwrap();
    assert_eq!(
        c.get(&name("set.example"), RRK_A, RRC_IN, at(0), false),
        vec![Item::Negative { response_code: RCODE_NX_DOMAIN, soa: Some(name("example")) }]
    );
}

#[test]
fn uncachable_negative_is_refused() {
    let mut c = cache();
    let r = c.insert(
        name("r.example"),
        RRK_A,
        RRC_IN,
        60,
        at(0),
        Item::Negative { response_code: RCODE_REFUSED, soa: None },
    );
    assert_eq!(r, Err(InsertError::UncachableResponseCode));
    let r = c.insert(
        name("r.example"),
        RRK_A,
        RRC_IN,
        60,
        at(0),
        Item::Negative { response_code: RCODE_NO_ERROR, soa: None },
    );
    assert_eq!(r, Err(InsertError::UncachableResponseCode));
    assert_eq!(c.len(), 0);
}

#[test]
fn lru_evicts_least_recently_used() {
    let mut c = Cache::new(2, 86400, 0, 0, 0, Duration::from_secs(0), 5);
    for (i, owner) in ["a.example", "b.example", "c.example"].iter().enumerate() {
        c.insert(name(owner), RRK_NS, RRC_IN, 60, at(i as u64), Item::Positive(record(owner, RRK_NS, 60, RRData::Name(name("ns.example")))))
            .unwrap();
    }
    assert_eq!(c.len(), 2);
    assert_eq!(c.get(&name("a.example"), RRK_NS, RRC_IN, at(3), false), vec![]);
    assert_eq!(c.get(&name("b.example"), RRK_NS, RRC_IN, at(3), false).len(), 1);
    assert_eq!(c.get(&name("c.example"), RRK_NS, RRC_IN, at(3), false).len(), 1);
}

#[test]
fn read_refreshes_recency() {
    let mut c = Cache::new(2, 86400, 0, 0, 0, Duration::from_secs(0), 5);
    c.insert(name("a.example"), RRK_A, RRC_IN, 60, at(0), Item::Positive(record("a.example", RRK_A, 60, ipv4(1, 0, 0, 1))))
        .unwrap();
    c.insert(name("b.example"), RRK_A, RRC_IN, 60, at(0), Item::Positive(record("b.example", RRK_A, 60, ipv4(1, 0, 0, 2))))
        .unwrap();
    // reading `a` makes `b` the least recently used
    assert_eq!(c.get(&name("a.example"), RRK_A, RRC_IN, at(1), false).len(), 1);
    c.insert(name("c.example"), RRK_A, RRC_IN, 60, at(1), Item::Positive(record("c.example", RRK_A, 60, ipv4(1, 0, 0, 3))))
        .unwrap();
    assert_eq!(c.get(&name("a.example"), RRK_A, RRC_IN, at(2), false).len(), 1);
    assert_eq!(c.get(&name("b.example"), RRK_A, RRC_IN, at(2), false), vec![]);
}
