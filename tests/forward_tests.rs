use dnsforward::cache::{Cache, Item};
use dnsforward::coalesce::{InFlight, Role};
use dnsforward::dns::{
    Name, Packet, PacketKind, Question, RRData, ResourceRecord, Soa, OP_QUERY, RCODE_NO_ERROR,
    RCODE_NX_DOMAIN, RCODE_SERVER_FAILURE, RRC_IN, RRK_A, RRK_CNAME, RRK_SOA,
};
use dnsforward::forward::{lookup_cache, refuse_without_recursion, update_cache, Begin, Forward};
use dnsforward::time::{Duration, Instant};

const T: u64 = 5_000_000_000_000;

fn name(s: &str) -> Name {
    s.parse().unwrap()
}

fn at(secs: u64) -> Instant {
    Instant::from_nanos(T).plus_secs(secs)
}

fn question(owner: &str, kind: u16) -> Question {
    Question { name: name(owner), kind, class: RRC_IN }
}

fn query(owner: &str, kind: u16) -> Packet {
    let mut q = Packet::new(42, PacketKind::Query, OP_QUERY, question(owner, kind));
    q.recursion_desired = true;
    q
}

fn record(owner: &str, kind: u16, ttl: u32, data: RRData) -> ResourceRecord {
    ResourceRecord { name: name(owner), kind, class: RRC_IN, ttl_secs: ttl, data }
}

fn soa_record(owner: &str, ttl: u32, min_ttl: u32) -> ResourceRecord {
    record(
        owner,
        RRK_SOA,
        ttl,
        RRData::Soa(Soa {
            primary_name: name("ns.com"),
            responsible_name: name("admin.com"),
            serial: 1,
            refresh_secs: 2,
            retry_secs: 3,
            expire_secs: 4,
            min_ttl_secs: min_ttl,
        }),
    )
}

fn cache() -> Cache {
    Cache::new(100, 86400, 0, 0, 0, Duration::from_secs(0), 5)
}

#[test]
fn nx_domain_with_soa() {
    let mut c = cache();
    let mut resp = Packet::new(42, PacketKind::Response, OP_QUERY, question("nope.com", RRK_A));
    resp.response_code = RCODE_NX_DOMAIN;
    resp.authorities.push(soa_record("com", 3600, 900));
    update_cache(&mut c, &resp, at(0));
    assert_eq!(
        c.get(&name("nope.com"), RRK_A, RRC_IN, at(0), false),
        vec![Item::Negative { response_code: RCODE_NX_DOMAIN, soa: Some(name("com")) }]
    );
    assert_eq!(c.get(&name("nope.com"), RRK_A, RRC_IN, at(899), false).len(), 1);
    assert_eq!(c.get(&name("nope.com"), RRK_A, RRC_IN, at(901), false), vec![]);
    // the SOA record itself is cached as a positive record of `com`
    assert_eq!(c.get(&name("com"), RRK_SOA, RRC_IN, at(0), false).len(), 1);
}

#[test]
fn failure_without_soa_is_not_cached_negatively() {
    let mut c = Cache::new(100, 86400, 30, 10, 600, Duration::from_secs(0), 5);
    let mut resp = Packet::new(1, PacketKind::Response, OP_QUERY, question("x.org", RRK_A));
    resp.response_code = RCODE_SERVER_FAILURE;
    update_cache(&mut c, &resp, at(0));
    assert_eq!(c.len(), 0);
    let q = query("x.org", RRK_A);
    assert_eq!(lookup_cache(&mut c, &q, at(0)), None);
    // the same with NX_DOMAIN and a non-zero persistent floor
    resp.response_code = RCODE_NX_DOMAIN;
    update_cache(&mut c, &resp, at(0));
    assert_eq!(c.len(), 0);
    // an SOA of another class does not count either
    let mut other = soa_record("org", 300, 60);
    other.class = 3;
    resp.authorities.push(other);
    update_cache(&mut c, &resp, at(0));
    assert_eq!(c.get(&name("x.org"), RRK_A, RRC_IN, at(0), false), vec![]);
}

#[test]
fn negative_ttl_is_the_smaller_soa_ttl() {
    let mut c = cache();
    let mut resp = Packet::new(1, PacketKind::Response, OP_QUERY, question("gone.net", RRK_A));
    resp.response_code = RCODE_SERVER_FAILURE;
    resp.authorities.push(record("gone.net", RRK_A, 50, RRData::Ipv4Addr(1)));
    resp.authorities.push(soa_record("net", 120, 900));
    update_cache(&mut c, &resp, at(0));
    assert_eq!(
        c.get(&name("gone.net"), RRK_A, RRC_IN, at(119), false),
        vec![Item::Negative { response_code: RCODE_SERVER_FAILURE, soa: Some(name("net")) }]
    );
    assert_eq!(c.get(&name("gone.net"), RRK_A, RRC_IN, at(120), false), vec![]);
}

#[test]
fn lookup_answers_from_cache() {
    let mut c = cache();
    let mut resp = Packet::new(7, PacketKind::Response, OP_QUERY, question("www.example.com", RRK_A));
    resp.answers.push(record("www.example.com", RRK_A, 300, RRData::Ipv4Addr(0x01020304)));
    update_cache(&mut c, &resp, at(0));
    let q = query("www.example.com", RRK_A);
    let r = lookup_cache(&mut c, &q, at(10)).unwrap();
    assert_eq!(r.id, 42);
    assert_eq!(r.kind, PacketKind::Response);
    assert_eq!(r.response_code, RCODE_NO_ERROR);
    assert_eq!(r.question, q.question);
    assert_eq!(r.answers, vec![record("www.example.com", RRK_A, 290, RRData::Ipv4Addr(0x01020304))]);
    assert!(r.authorities.is_empty());
    // nothing cached for another name: a miss
    assert_eq!(lookup_cache(&mut c, &query("other.example.com", RRK_A), at(10)), None);
}

#[test]
fn cname_chain_is_assembled() {
    let mut c = cache();
    let mut resp = Packet::new(7, PacketKind::Response, OP_QUERY, question("a.example.net", RRK_A));
    resp.answers.push(record("a.example.net", RRK_CNAME, 300, RRData::Name(name("b.example.net"))));
    resp.answers.push(record("b.example.net", RRK_CNAME, 300, RRData::Name(name("c.zone.org"))));
    resp.authorities.push(soa_record("zone.org", 300, 60));
    update_cache(&mut c, &resp, at(0));
    let r = lookup_cache(&mut c, &query("a.example.net", RRK_A), at(0)).unwrap();
    assert_eq!(r.response_code, RCODE_NO_ERROR);
    assert_eq!(
        r.answers,
        vec![
            record("a.example.net", RRK_CNAME, 300, RRData::Name(name("b.example.net"))),
            record("b.example.net", RRK_CNAME, 300, RRData::Name(name("c.zone.org"))),
        ]
    );
    assert_eq!(r.authorities, vec![soa_record("zone.org", 300, 60)]);
}

#[test]
fn cname_chain_ends_in_address() {
    let mut c = cache();
    let mut resp = Packet::new(7, PacketKind::Response, OP_QUERY, question("a.example.net", RRK_A));
    resp.answers.push(record("a.example.net", RRK_CNAME, 300, RRData::Name(name("b.example.net"))));
    resp.answers.push(record("b.example.net", RRK_A, 300, RRData::Ipv4Addr(7)));
    update_cache(&mut c, &resp, at(0));
    let r = lookup_cache(&mut c, &query("a.example.net", RRK_A), at(0)).unwrap();
    assert_eq!(
        r.answers,
        vec![
            record("a.example.net", RRK_CNAME, 300, RRData::Name(name("b.example.net"))),
            record("b.example.net", RRK_A, 300, RRData::Ipv4Addr(7)),
        ]
    );
    assert!(r.authorities.is_empty());
}

#[test]
fn cname_cycle_is_server_failure() {
    let mut c = cache();
    let mut resp = Packet::new(7, PacketKind::Response, OP_QUERY, question("p.example", RRK_A));
    resp.answers.push(record("p.example", RRK_CNAME, 300, RRData::Name(name("q.example"))));
    resp.answers.push(record("q.example", RRK_CNAME, 300, RRData::Name(name("p.example"))));
    update_cache(&mut c, &resp, at(0));
    let r = lookup_cache(&mut c, &query("p.example", RRK_A), at(0)).unwrap();
    assert_eq!(r.response_code, RCODE_SERVER_FAILURE);
    assert_eq!(r.answers.len(), 2);
}

#[test]
fn recursion_not_desired_is_refused() {
    let mut q = query("x.example", RRK_A);
    q.recursion_desired = false;
    let r = refuse_without_recursion(&q).unwrap();
    assert_eq!(r.response_code, RCODE_SERVER_FAILURE);
    assert_eq!(r.id, 42);
    q.recursion_desired = true;
    assert_eq!(refuse_without_recursion(&q), None);
}

#[test]
fn single_flight_coalescing() {
    let mut f: Forward<u32> = Forward::new(Some(cache()));
    let q = query("sf.example", RRK_A);
    let first = f.begin(&q, at(0), 1);
    let second = f.begin(&q, at(0), 2);
    assert!(matches!(first, Begin::Lead));
    assert!(matches!(second, Begin::Wait(1)));
    // the leader's upstream answer
    let mut upstream = Packet::new(999, PacketKind::Response, OP_QUERY, question("sf.example", RRK_A));
    upstream.answers.push(record("sf.example", RRK_A, 60, RRData::Ipv4Addr(0x0a000001)));
    let leader = f.complete(&q, Some(upstream.clone()), at(0)).unwrap();
    let mut expected = upstream;
    expected.id = 42;
    assert_eq!(leader, expected);
    assert_eq!(f.finish_leading(&q.question), Some(1));
    // the waiter wakes and finds the same answer in the cache
    let waiter = match f.after_wait(&q, at(0), 2) {
        Begin::Respond(p) => p,
        _ => panic!("expected a cached answer"),
    };
    assert_eq!(leader.id, 42);
    assert_eq!(waiter.id, leader.id);
    assert_eq!(waiter.answers, leader.answers);
    assert_eq!(waiter.response_code, leader.response_code);
    // the flight is over: a new miss leads again
    let q2 = query("other.example", RRK_A);
    assert!(matches!(f.begin(&q2, at(0), 3), Begin::Lead));
}

#[test]
fn waiter_leads_when_leader_stored_nothing() {
    let mut f: Forward<u32> = Forward::new(Some(cache()));
    let q = query("empty.example", RRK_A);
    assert!(matches!(f.begin(&q, at(0), 1), Begin::Lead));
    assert!(matches!(f.begin(&q, at(0), 2), Begin::Wait(1)));
    // the leader got nothing from upstream
    assert_eq!(f.complete(&q, None, at(0)), None);
    assert_eq!(f.finish_leading(&q.question), Some(1));
    assert_eq!(f.finish_leading(&q.question), None);
    // the waiter becomes the new leader; a third caller waits on it
    assert!(matches!(f.after_wait(&q, at(0), 2), Begin::Lead));
    assert!(matches!(f.begin(&q, at(0), 3), Begin::Wait(2)));
}

#[test]
fn without_cache_every_query_asks() {
    let mut f: Forward<u32> = Forward::new(None);
    let q = query("n.example", RRK_A);
    assert!(matches!(f.begin(&q, at(0), 1), Begin::Ask));
    assert!(matches!(f.begin(&q, at(0), 2), Begin::Ask));
    assert!(matches!(f.after_wait(&q, at(0), 3), Begin::Ask));
    assert_eq!(f.lookup_cache(&q, at(0)), None);
}

#[test]
fn in_flight_has_one_leader() {
    let mut s: InFlight<&str> = InFlight::new();
    let q = question("x.example", RRK_A);
    assert!(matches!(s.join(&q, "first"), Role::Leader));
    assert!(matches!(s.join(&q, "second"), Role::Waiter("first")));
    assert!(s.is_in_flight(&q));
    assert_eq!(s.leave(&q), Some("first"));
    assert!(!s.is_in_flight(&q));
    assert_eq!(s.leave(&q), None);
    assert!(matches!(s.join(&q, "third"), Role::Leader));
}
