use dnsforward::dns::{
    Name, Packet, PacketKind, Question, OP_QUERY, RCODE_FORMAT_ERROR, RCODE_NO_ERROR,
    RCODE_NX_DOMAIN, RCODE_REFUSED, RCODE_SERVER_FAILURE, RRC_IN, RRK_A,
};
use dnsforward::process::{accepts, prepare, RuleCycle, RuleWalk};
use dnsforward::upstream::{
    check_reply, err_response, is_usable, upstream_query, PacketIds, PoolStep, Preferred,
    ReplyError,
};

fn question() -> Question {
    Question { name: "q.example".parse::<Name>().unwrap(), kind: RRK_A, class: RRC_IN }
}

#[test]
fn upstream_failover() {
    let mut p = Preferred::new();
    // nothing preferred yet: race all servers
    assert_eq!(p.first_choice(2), None);
    assert!(p.should_race(0));
    // S1 timed out, S2 answered first
    p.record_race(Some(1));
    assert_eq!(p, Preferred { idx: 1, version: 1 });
    // the next request goes straight to S2
    assert_eq!(p.first_choice(2), Some(1));
    // a task that read version 0 sees the change and does not race again
    assert!(!p.should_race(0));
}

#[test]
fn all_upstreams_failed_resets_preference() {
    let mut p = Preferred { idx: 1, version: 4 };
    p.record_race(None);
    assert_eq!(p.version, 0);
    assert_eq!(p.first_choice(2), None);
    let r = err_response(RCODE_SERVER_FAILURE, question());
    assert_eq!(r.response_code, RCODE_SERVER_FAILURE);
    assert_eq!(r.kind, PacketKind::Response);
    assert_eq!(r.question, question());
}

#[test]
fn usable_codes() {
    assert!(is_usable(RCODE_NO_ERROR));
    assert!(is_usable(RCODE_NX_DOMAIN));
    assert!(!is_usable(RCODE_SERVER_FAILURE));
    assert!(!is_usable(RCODE_REFUSED));
    assert!(!is_usable(RCODE_FORMAT_ERROR));
}

#[test]
fn packet_ids_wrap() {
    let mut ids = PacketIds::new();
    assert_eq!(ids.take(), 1);
    assert_eq!(ids.take(), 2);
    ids.next = u16::MAX;
    assert_eq!(ids.take(), u16::MAX);
    assert_eq!(ids.take(), 0);
}

#[test]
fn reply_with_other_id_is_refused() {
    let q = upstream_query(7, &question());
    assert!(q.recursion_desired);
    assert_eq!(q.kind, PacketKind::Query);
    let reply = Packet::new(8, PacketKind::Response, OP_QUERY, question());
    assert_eq!(check_reply(7, reply), Err(ReplyError::MismatchedId { expected: 7, got: 8 }));
    let reply = Packet::new(7, PacketKind::Response, OP_QUERY, question());
    assert_eq!(check_reply(7, reply.clone()), Ok(reply));
}

#[test]
fn processor_accepts_standard_in_queries() {
    let mut q = Packet::new(1, PacketKind::Query, OP_QUERY, question());
    assert!(accepts(&q));
    q.question.class = 3;
    assert!(!accepts(&q));
    q.question.class = RRC_IN;
    q.op_kind = 2;
    assert!(!accepts(&q));
    q.op_kind = OP_QUERY;
    q.kind = PacketKind::Response;
    assert!(!accepts(&q));
}

#[test]
fn prepare_clears_answer_parts() {
    let mut q = Packet::new(1, PacketKind::Query, OP_QUERY, question());
    q.authoritative = true;
    q.response_code = RCODE_REFUSED;
    q.recursion_desired = true;
    q.answers.push(dnsforward::dns::ResourceRecord {
        name: question().name,
        kind: RRK_A,
        class: RRC_IN,
        ttl_secs: 1,
        data: dnsforward::dns::RRData::Ipv4Addr(1),
    });
    prepare(&mut q);
    assert!(!q.authoritative);
    assert_eq!(q.response_code, RCODE_NO_ERROR);
    assert!(q.answers.is_empty());
    assert!(q.recursion_desired);
}

#[test]
fn rule_list_cycle_is_detected() {
    let mut w = RuleWalk::new("default".to_string());
    assert_eq!(w.current_list(), "default");
    w.next_rule();
    assert_eq!(w.current_index(), 1);
    assert_eq!(w.jump("other".to_string()), Ok(()));
    assert_eq!(w.current_list(), "other");
    assert_eq!(w.current_index(), 0);
    assert_eq!(w.jump("default".to_string()), Err(RuleCycle));
    assert_eq!(w.current_list(), "other");
}

#[test]
fn pool_steps() {
    let mut p = Preferred::new();
    assert!(matches!(p.step(0), PoolStep::Unavailable));
    assert!(matches!(p.step(2), PoolStep::Race));
    let answer = Packet::new(5, PacketKind::Response, OP_QUERY, question());
    assert_eq!(p.finish_race(Some((1, answer.clone())), &question()), answer);
    assert!(matches!(p.step(2), PoolStep::TryPreferred(1)));
    // the preferred index is out of range for a smaller pool: race
    assert!(matches!(p.step(1), PoolStep::Race));
    let r = p.finish_race(None, &question());
    assert_eq!(r.response_code, RCODE_SERVER_FAILURE);
    assert_eq!(p.version, 0);
    assert!(matches!(p.step(2), PoolStep::Race));
}
