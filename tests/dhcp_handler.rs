use erbium::dhcp::{handle_pkt, prepare_reply, DhcpError, Pool, ServerIds, SourceAddr};
use erbium::dhcppkt::{
    parse, DhcpMessage, DhcpOptions, ParseError, RawOption, DHCPACK, DHCPDISCOVER, DHCPINFORM,
    DHCPOFFER, DHCPREQUEST, OP_BOOTREPLY, OP_BOOTREQUEST,
};

fn ip(a: u8, b: u8, c: u8, d: u8) -> u32 {
    u32::from_be_bytes([a, b, c, d])
}

fn chaddr() -> Vec<u8> {
    let mut v = vec![2, 0, 0, 0, 0, 1];
    v.resize(16, 0);
    v
}

fn request(messagetype: u8, serveridentifier: Option<u32>) -> DhcpMessage {
    DhcpMessage {
        op: OP_BOOTREQUEST,
        htype: 1,
        hlen: 6,
        hops: 0,
        xid: 0xDEADBEEF,
        secs: 0,
        flags: 0x8000,
        ciaddr: 0,
        yiaddr: 0,
        siaddr: 0,
        giaddr: 0,
        chaddr: chaddr(),
        sname: vec![0; 64],
        file: vec![0; 128],
        options: DhcpOptions {
            messagetype,
            hostname: Some(b"client".to_vec()),
            parameterlist: None,
            leasetime: None,
            serveridentifier,
            clientidentifier: None,
            other: vec![],
        },
    }
}

fn pool() -> Pool {
    Pool::new(vec![ip(192, 0, 2, 50)], 3600).unwrap()
}

fn from() -> SourceAddr {
    SourceAddr::V4 { ip: ip(192, 0, 2, 1), port: 68 }
}

#[test]
fn discover_gets_offer() {
    let mut pools = pool();
    let ids = ServerIds::new();
    let buf = request(DHCPDISCOVER, None).serialise();
    let r = handle_pkt(&mut pools, &buf, from(), &ids).unwrap();
    assert_eq!(r.op, OP_BOOTREPLY);
    assert_eq!(r.xid, 0xDEADBEEF);
    assert_eq!(r.yiaddr, ip(192, 0, 2, 50));
    assert_eq!(r.flags, 0x8000);
    assert_eq!(r.chaddr, chaddr());
    assert_eq!(r.options.messagetype, DHCPOFFER);
    assert_eq!(r.options.serveridentifier, Some(ip(192, 0, 2, 1)));
    assert_eq!(r.options.leasetime, None);
    assert_eq!(r.options.hostname, Some(b"client".to_vec()));
}

#[test]
fn request_for_other_server_is_dropped() {
    let mut pools = pool();
    let mut ids = ServerIds::new();
    ids.insert(ip(192, 0, 2, 1));
    let buf = request(DHCPREQUEST, Some(ip(198, 51, 100, 9))).serialise();
    let r = handle_pkt(&mut pools, &buf, from(), &ids);
    assert!(matches!(r, Err(DhcpError::OtherServer)));
    // The pool still holds its address.
    assert_eq!(pools.allocate_address().map(|l| l.ip), Some(ip(192, 0, 2, 50)));
}

#[test]
fn request_accepted_gets_ack() {
    let mut pools = pool();
    let mut ids = ServerIds::new();
    ids.insert(ip(192, 0, 2, 1));
    let buf = request(DHCPREQUEST, Some(ip(192, 0, 2, 1))).serialise();
    let r = handle_pkt(&mut pools, &buf, from(), &ids.snapshot()).unwrap();
    assert_eq!(r.options.messagetype, DHCPACK);
    assert_eq!(r.yiaddr, ip(192, 0, 2, 50));
    assert_eq!(r.ciaddr, 0);
    assert_eq!(r.options.leasetime, Some(3600));
    assert_eq!(r.xid, 0xDEADBEEF);
}

#[test]
fn exhausted_pool() {
    let mut pools = Pool::new(vec![], 3600).unwrap();
    let ids = ServerIds::new();
    let buf = request(DHCPDISCOVER, None).serialise();
    assert!(matches!(handle_pkt(&mut pools, &buf, from(), &ids), Err(DhcpError::NoLeasesAvailable)));
}

#[test]
fn zero_lease_time_pool_refused() {
    assert!(Pool::new(vec![1], 0).is_none());
}

#[test]
fn unknown_message_type() {
    let mut pools = pool();
    let ids = ServerIds::new();
    let buf = request(DHCPINFORM, None).serialise();
    assert!(matches!(
        handle_pkt(&mut pools, &buf, from(), &ids),
        Err(DhcpError::UnknownMessageType(8))
    ));
}

#[test]
fn discover_from_v6_is_internal_error() {
    let mut pools = pool();
    let ids = ServerIds::new();
    let buf = request(DHCPDISCOVER, None).serialise();
    assert!(matches!(
        handle_pkt(&mut pools, &buf, SourceAddr::V6, &ids),
        Err(DhcpError::InternalError(_))
    ));
}

#[test]
fn parse_errors() {
    assert_eq!(parse(&[0u8; 100]).err(), Some(ParseError::ShortPacket));
    let mut buf = request(DHCPDISCOVER, None).serialise();
    buf[237] = 0;
    assert_eq!(parse(&buf).err(), Some(ParseError::BadMagic));
    let mut buf = request(DHCPDISCOVER, None).serialise();
    buf.pop();
    assert_eq!(parse(&buf).err(), Some(ParseError::TruncatedOption));
    let mut buf = request(DHCPDISCOVER, None).serialise();
    buf.truncate(240);
    buf.extend_from_slice(&[53, 2, 1, 1, 255]);
    assert_eq!(parse(&buf).err(), Some(ParseError::UnknownMandatory));
    let mut buf = request(DHCPDISCOVER, None).serialise();
    buf.truncate(240);
    buf.extend_from_slice(&[12, 1, b'x', 255]);
    assert_eq!(parse(&buf).err(), Some(ParseError::UnknownMandatory));
}

#[test]
fn handle_pkt_reports_parse_error() {
    let mut pools = pool();
    let ids = ServerIds::new();
    assert!(matches!(
        handle_pkt(&mut pools, &[1, 2, 3], from(), &ids),
        Err(DhcpError::ParseError(ParseError::ShortPacket))
    ));
}

#[test]
fn serialise_parse_round_trip() {
    let mut m = request(DHCPREQUEST, Some(ip(192, 0, 2, 1)));
    m.options.leasetime = Some(3600);
    m.options.clientidentifier = Some(vec![1, 2, 0, 0, 0, 0, 1]);
    m.options.parameterlist = Some(vec![1, 3, 6]);
    m.options.other = vec![
        RawOption { code: 43, value: vec![9, 9] },
        RawOption { code: 60, value: b"vendor".to_vec() },
    ];
    let b = m.serialise();
    let p = parse(&b).unwrap();
    assert_eq!(p.serialise(), b);
    assert_eq!(p.options.leasetime, Some(3600));
    assert_eq!(p.options.serveridentifier, Some(ip(192, 0, 2, 1)));
    assert_eq!(p.options.other.len(), 2);
}

#[test]
fn serialise_layout() {
    let m = request(DHCPDISCOVER, Some(ip(192, 0, 2, 1)));
    let b = m.serialise();
    assert_eq!(&b[4..8], &[0xDE, 0xAD, 0xBE, 0xEF]);
    assert_eq!(&b[10..12], &[0x80, 0x00]);
    assert_eq!(&b[236..240], &[0x63, 0x82, 0x53, 0x63]);
    assert_eq!(&b[240..243], &[53, 1, DHCPDISCOVER]);
    assert_eq!(&b[243..249], &[54, 4, 192, 0, 2, 1]);
    assert_eq!(&b[249..257], &[12, 6, b'c', b'l', b'i', b'e', b'n', b't']);
    assert_eq!(b[257], 255);
    assert_eq!(b.len(), 258);
}

#[test]
fn unknown_options_are_ordered_by_code() {
    let mut buf = request(DHCPDISCOVER, None).serialise();
    buf.truncate(240);
    buf.extend_from_slice(&[53, 1, 1, 0, 77, 1, 7, 43, 1, 4, 77, 1, 8, 255]);
    let p = parse(&buf).unwrap();
    let codes: Vec<u8> = p.options.other.iter().map(|o| o.code).collect();
    assert_eq!(codes, vec![43, 77]);
    assert_eq!(p.options.other[1].value, vec![8]);
    let out = p.serialise();
    assert_eq!(&out[240..], &[53, 1, 1, 43, 1, 4, 77, 1, 8, 255]);
}

#[test]
fn reply_server_id_recorded_before_sending() {
    let mut pools = pool();
    let mut ids = ServerIds::new();
    let buf = request(DHCPDISCOVER, None).serialise();
    let r = handle_pkt(&mut pools, &buf, from(), &ids).unwrap();
    let bytes = prepare_reply(&mut ids, &r);
    assert!(ids.contains(ip(192, 0, 2, 1)));
    assert_eq!(bytes, r.serialise());
}
