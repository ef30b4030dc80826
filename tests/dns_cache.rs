use erbium::cache::{
    clone_out_reply, CacheHandler, Error, Lookup, OutQueryError, Question,
};
use erbium::dns::{DnsReply, ResourceRecord, CLASS_IN};

fn rr(ttl: u32) -> ResourceRecord {
    ResourceRecord { name: b"example.com".to_vec(), rtype: 1, ttl, rdata: vec![192, 0, 2, 7] }
}

fn reply(ttl: u32) -> DnsReply {
    DnsReply { answers: vec![rr(ttl)], authority: vec![], soa_minimum: None }
}

fn question(name: &[u8]) -> Question {
    Question { qdomain: name.to_vec(), qtype: 1, qclass: CLASS_IN }
}

#[test]
fn hit_decrements_ttl() {
    let mut c = CacheHandler::new();
    let q = question(b"example.com");
    let t0: u64 = 1_000_000;
    assert!(matches!(c.handle_query(&q, t0), Lookup::Miss));
    let (r, size) = c.complete_query(&q, Ok(reply(300)), t0);
    assert_eq!(r.unwrap().answers[0].ttl, 300);
    assert_eq!(size, 1);
    match c.handle_query(&q, t0 + 120_000) {
        Lookup::Hit(Ok(p)) => {
            assert_eq!(p.answers[0].ttl, 180);
            assert_eq!(p.answers[0].rdata, vec![192, 0, 2, 7]);
        }
        _ => panic!("expected a hit"),
    }
    assert!(matches!(c.handle_query(&q, t0 + 300_000), Lookup::Expired));
}

#[test]
fn timeout_cached_for_cooldown() {
    let mut c = CacheHandler::new();
    let q = question(b"slow.example");
    let t0: u64 = 5_000;
    let (r, size) = c.complete_query(&q, Err(Error::OutReply(OutQueryError::Timeout)), t0);
    assert!(matches!(r, Err(Error::OutReply(OutQueryError::Timeout))));
    assert_eq!(size, 1);
    for dt in [0u64, 2_000, 7_999] {
        assert!(matches!(
            c.handle_query(&q, t0 + dt),
            Lookup::Hit(Err(Error::OutReply(OutQueryError::Timeout)))
        ));
    }
    assert!(matches!(c.handle_query(&q, t0 + 8_000), Lookup::Expired));
}

#[test]
fn send_failure_stored_as_message() {
    let mut c = CacheHandler::new();
    let q = question(b"down.example");
    let e = Error::OutReply(OutQueryError::FailedToSend("network unreachable".to_string()));
    let (r, _) = c.complete_query(&q, Err(e), 0);
    assert!(matches!(r, Err(Error::OutReply(OutQueryError::FailedToSend(_)))));
    match c.handle_query(&q, 1) {
        Lookup::Hit(Err(Error::OutReply(OutQueryError::FailedToSendMsg(m)))) => {
            assert_eq!(m, "network unreachable")
        }
        _ => panic!("expected the cached message"),
    }
}

#[test]
fn not_authoritative_not_cached() {
    let mut c = CacheHandler::new();
    let q = question(b"x.example");
    let (r, size) = c.complete_query(&q, Err(Error::NotAuthoritative), 0);
    assert!(matches!(r, Err(Error::NotAuthoritative)));
    assert_eq!(size, 0);
    assert!(matches!(c.handle_query(&q, 1), Lookup::Miss));
    let (_, size) = c.complete_query(
        &q,
        Err(Error::OutReply(OutQueryError::InternalError("bug".to_string()))),
        0,
    );
    assert_eq!(size, 0);
}

#[test]
fn other_class_bypasses() {
    let mut c = CacheHandler::new();
    let q = Question { qdomain: b"chaos".to_vec(), qtype: 16, qclass: 3 };
    assert!(matches!(c.handle_query(&q, 0), Lookup::UncachableClass));
    let (_, size) = c.complete_query(&q, Ok(reply(60)), 0);
    assert_eq!(size, 0);
}

#[test]
fn same_key_replaced() {
    let mut c = CacheHandler::new();
    let q = question(b"example.com");
    c.complete_query(&q, Ok(reply(10)), 0);
    let (_, size) = c.complete_query(&q, Ok(reply(50)), 20_000);
    assert_eq!(size, 1);
    match c.handle_query(&q, 21_000) {
        Lookup::Hit(Ok(p)) => assert_eq!(p.answers[0].ttl, 49),
        _ => panic!("expected a hit"),
    }
}

#[test]
fn expiry_sweep_clamps_delay() {
    let mut c = CacheHandler::new();
    let t0: u64 = 0;
    for k in 0..1000u64 {
        let name = format!("host{}.example", k);
        c.complete_query(&question(name.as_bytes()), Ok(reply(10)), t0 + k / 10);
    }
    assert_eq!(c.len(), 1000);
    let (delay, size) = c.expire(t0);
    assert_eq!(delay, 30_000);
    assert_eq!(size, 1000);
    let (delay, size) = c.expire(t0 + delay);
    assert_eq!(size, 0);
    assert_eq!(delay, 1_800_000);
}

#[test]
fn expiry_sweep_keeps_live() {
    let mut c = CacheHandler::new();
    c.complete_query(&question(b"a"), Ok(reply(100)), 0);
    c.complete_query(&question(b"b"), Ok(reply(3600)), 0);
    let (delay, size) = c.expire(100_000);
    assert_eq!(size, 1);
    assert_eq!(delay, 3_500_000.min(1_800_000));
    assert!(matches!(c.handle_query(&question(b"b"), 100_000), Lookup::Hit(Ok(_))));
    let (delay, _) = c.expire(3_590_000);
    assert_eq!(delay, 30_000);
}

#[test]
fn expiry_of_reply() {
    let p = DnsReply { answers: vec![rr(300), rr(60)], authority: vec![rr(120)], soa_minimum: None };
    assert_eq!(p.get_expiry(), 60);
    let n = DnsReply { answers: vec![], authority: vec![rr(900)], soa_minimum: Some(300) };
    assert_eq!(n.get_expiry(), 300);
    let e = DnsReply { answers: vec![], authority: vec![], soa_minimum: None };
    assert_eq!(e.get_expiry(), 0);
}

#[test]
fn ttl_decrement_saturates() {
    let p = reply(5);
    assert_eq!(p.clone_with_ttl_decrement(9).answers[0].ttl, 0);
    assert_eq!(p.clone_with_ttl_decrement(2).answers[0].ttl, 3);
}

#[test]
fn projection_flattens_io_errors() {
    let r: Result<DnsReply, Error> =
        Err(Error::OutReply(OutQueryError::FailedToRecv("reset".to_string())));
    match clone_out_reply(&r) {
        Err(Error::OutReply(OutQueryError::FailedToRecvMsg(m))) => assert_eq!(m, "reset"),
        _ => panic!("expected a message"),
    }
}
