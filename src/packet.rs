use vstd::prelude::*;

use crate::dhcppkt::{be16, be32, push_be16, push_be32};

verus! {

pub const ETHERTYPE_IPV4: u16 = 0x0800;
pub const IPPROTO_UDP: u8 = 17;
pub const DEFAULT_TTL: u8 = 64;
pub const IPV4_HEADER_LEN: usize = 20;
pub const UDP_HEADER_LEN: usize = 8;
pub const BROADCAST_FLAG: u16 = 0x8000;

/// Largest UDP payload that fits in one IPv4 datagram.
pub const MAX_UDP_PAYLOAD: usize = 65507;

pub open spec fn word_at(b: Seq<u8>, i: int) -> nat {
    if i + 1 < b.len() { (b[i] * 256 + b[i + 1]) as nat } else { (b[i] * 256) as nat }
}

/// The sum of `b` read as big-endian 16-bit words, an odd last byte padded with zero.
pub open spec fn word_sum(b: Seq<u8>) -> nat
    decreases b.len(),
{
    if b.len() == 0 {
        0
    } else if b.len() == 1 {
        (b[0] * 256) as nat
    } else {
        (b[0] * 256 + b[1]) as nat + word_sum(b.skip(2))
    }
}

/// `n` with its carries above 16 bits folded back in, as one's complement addition does.
pub open spec fn fold_carries(n: nat) -> nat
    decreases n,
{
    if n < 0x10000 {
        n
    } else {
        fold_carries(n / 0x10000 + n % 0x10000)
    }
}

/// The Internet checksum of `b`: the one's complement of its one's complement sum.
pub open spec fn internet_checksum(b: Seq<u8>) -> u16 {
    (0xffff - fold_carries(word_sum(b))) as u16
}

/// The IPv4 header, with `checksum` in its place.
pub open spec fn ipv4_header(src: u32, dst: u32, total_len: u16, checksum: u16) -> Seq<u8> {
    seq![0x45u8, 0u8] + be16(total_len) + seq![0u8, 0u8, 0u8, 0u8, DEFAULT_TTL, IPPROTO_UDP]
        + be16(checksum) + be32(src) + be32(dst)
}

/// The pseudo-header that the UDP checksum covers.
pub open spec fn udp_pseudo_header(src: u32, dst: u32, udp_len: u16) -> Seq<u8> {
    be32(src) + be32(dst) + seq![0u8, IPPROTO_UDP] + be16(udp_len)
}

pub open spec fn udp_header(src_port: u16, dst_port: u16, udp_len: u16, checksum: u16) -> Seq<u8> {
    be16(src_port) + be16(dst_port) + be16(udp_len) + be16(checksum)
}

/// The UDP checksum as sent: a computed zero goes out as all ones.
pub open spec fn udp_checksum(
    src: u32,
    dst: u32,
    src_port: u16,
    dst_port: u16,
    payload: Seq<u8>,
) -> u16 {
    let udp_len = (payload.len() + UDP_HEADER_LEN) as u16;
    let c = internet_checksum(
        udp_pseudo_header(src, dst, udp_len) + udp_header(src_port, dst_port, udp_len, 0)
            + payload,
    );
    if c == 0 { 0xffff } else { c }
}

/// An Ethernet frame that carries `payload` in a UDP datagram over IPv4.
pub open spec fn udp_frame(
    src_mac: Seq<u8>,
    src: u32,
    src_port: u16,
    dst_mac: Seq<u8>,
    dst: u32,
    dst_port: u16,
    payload: Seq<u8>,
) -> Seq<u8> {
    let udp_len = (payload.len() + UDP_HEADER_LEN) as u16;
    let total_len = (payload.len() + UDP_HEADER_LEN + IPV4_HEADER_LEN) as u16;
    dst_mac + src_mac + be16(ETHERTYPE_IPV4) + ipv4_header(
        src,
        dst,
        total_len,
        internet_checksum(ipv4_header(src, dst, total_len, 0)),
    ) + udp_header(src_port, dst_port, udp_len, udp_checksum(src, dst, src_port, dst_port, payload))
        + payload
}

fn push_slice(out: &mut Vec<u8>, v: &[u8])
    ensures
        final(out)@ == old(out)@ + v@,
{
    let mut i: usize = 0;
    while i < v.len()
        invariant
            i <= v@.len(),
            out@ == old(out)@ + v@.take(i as int),
        decreases v@.len() - i,
    {
        out.push(v[i]);
        i = i + 1;
        assert(out@ =~= old(out)@ + v@.take(i as int));
    }
    assert(v@.take(i as int) =~= v@);
}

proof fn lemma_word_sum_bound(b: Seq<u8>)
    ensures
        word_sum(b) <= 65535 * b.len(),
    decreases b.len(),
{
    if b.len() >= 2 {
        lemma_word_sum_bound(b.skip(2));
    }
}

proof fn lemma_word_sum_step(b: Seq<u8>, i: int)
    requires
        0 <= i < b.len(),
    ensures
        word_sum(b.skip(i)) == word_at(b, i) + if i + 2 <= b.len() {
            word_sum(b.skip(i + 2))
        } else {
            0
        },
{
    let s = b.skip(i);
    assert(s[0] == b[i]);
    if i + 1 < b.len() {
        assert(s[1] == b[i + 1]);
        assert(s.skip(2) =~= b.skip(i + 2));
    }
}

/// The Internet checksum of `b`.
pub fn checksum(b: &Vec<u8>) -> (r: u16)
    requires
        b@.len() <= 0x20000,
    ensures
        r == internet_checksum(b@),
{
    let mut sum: u64 = 0;
    let mut i: usize = 0;
    proof {
        lemma_word_sum_bound(b@);
        assert(b@.skip(0) =~= b@);
    }
    while i < b.len()
        invariant
            i <= b@.len() <= 0x20000,
            sum + word_sum(b@.skip(i as int)) == word_sum(b@),
            word_sum(b@) <= 65535 * b@.len(),
        decreases b@.len() - i,
    {
        proof {
            lemma_word_sum_step(b@, i as int);
        }
        if i + 1 < b.len() {
            sum = sum + (b[i] as u64) * 256 + b[i + 1] as u64;
            i = i + 2;
        } else {
            sum = sum + (b[i] as u64) * 256;
            i = i + 1;
            assert(b@.skip(i as int).len() == 0);
        }
    }
    assert(b@.skip(i as int).len() == 0);
    while sum >= 0x10000
        invariant
            fold_carries(sum as nat) == fold_carries(word_sum(b@)),
        decreases sum,
    {
        sum = sum / 0x10000 + sum % 0x10000;
    }
    (0xffff - sum) as u16
}

/// Builds the Ethernet, IPv4 and UDP headers, with both checksums, around `payload`;
/// `None` where the payload does not fit in one datagram.
pub fn new_udp(
    src_mac: [u8; 6],
    src: u32,
    src_port: u16,
    dst_mac: [u8; 6],
    dst: u32,
    dst_port: u16,
    payload: &[u8],
) -> (r: Option<Vec<u8>>)
    ensures
        payload@.len() > MAX_UDP_PAYLOAD <==> r is None,
        r matches Some(f) ==> f@ == udp_frame(
            src_mac@,
            src,
            src_port,
            dst_mac@,
            dst,
            dst_port,
            payload@,
        ),
{
    if payload.len() > MAX_UDP_PAYLOAD {
        return None;
    }
    let udp_len: u16 = (payload.len() + UDP_HEADER_LEN) as u16;
    let total_len: u16 = (payload.len() + UDP_HEADER_LEN + IPV4_HEADER_LEN) as u16;

    let mut ip: Vec<u8> = Vec::new();
    push_ipv4_header(&mut ip, src, dst, total_len, 0);
    let ip_sum = checksum(&ip);

    let mut udp: Vec<u8> = Vec::new();
    push_be32(&mut udp, src);
    push_be32(&mut udp, dst);
    udp.push(0u8);
    udp.push(IPPROTO_UDP);
    push_be16(&mut udp, udp_len);
    push_udp_header(&mut udp, src_port, dst_port, udp_len, 0);
    push_slice(&mut udp, payload);
    assert(udp@ =~= udp_pseudo_header(src, dst, udp_len) + udp_header(src_port, dst_port, udp_len, 0)
        + payload@);
    let c = checksum(&udp);
    let udp_sum: u16 = if c == 0 { 0xffff } else { c };

    let mut out: Vec<u8> = Vec::new();
    push_slice(&mut out, &dst_mac);
    push_slice(&mut out, &src_mac);
    push_be16(&mut out, ETHERTYPE_IPV4);
    push_ipv4_header(&mut out, src, dst, total_len, ip_sum);
    push_udp_header(&mut out, src_port, dst_port, udp_len, udp_sum);
    push_slice(&mut out, payload);
    assert(out@ =~= udp_frame(src_mac@, src, src_port, dst_mac@, dst, dst_port, payload@));
    Some(out)
}

fn push_ipv4_header(out: &mut Vec<u8>, src: u32, dst: u32, total_len: u16, checksum: u16)
    ensures
        final(out)@ == old(out)@ + ipv4_header(src, dst, total_len, checksum),
{
    out.push(0x45u8);
    out.push(0u8);
    push_be16(out, total_len);
    out.push(0u8);
    out.push(0u8);
    out.push(0u8);
    out.push(0u8);
    out.push(DEFAULT_TTL);
    out.push(IPPROTO_UDP);
    push_be16(out, checksum);
    push_be32(out, src);
    push_be32(out, dst);
    assert(final(out)@ =~= old(out)@ + ipv4_header(src, dst, total_len, checksum));
}

fn push_udp_header(out: &mut Vec<u8>, src_port: u16, dst_port: u16, udp_len: u16, checksum: u16)
    ensures
        final(out)@ == old(out)@ + udp_header(src_port, dst_port, udp_len, checksum),
{
    push_be16(out, src_port);
    push_be16(out, dst_port);
    push_be16(out, udp_len);
    push_be16(out, checksum);
    assert(final(out)@ =~= old(out)@ + udp_header(src_port, dst_port, udp_len, checksum));
}

/// Whether a reply goes to Ethernet and IPv4 broadcast: where the request asked for
/// broadcast, or where the client has no address yet.
pub open spec fn broadcast_reply(flags: u16, ciaddr: u32) -> bool {
    flags >= BROADCAST_FLAG || ciaddr == 0
}

/// The link and IPv4 destination of a reply: broadcast (see `broadcast_reply`), or the
/// client's hardware address and the address it was given.
pub fn reply_destination(flags: u16, ciaddr: u32, chaddr: &Vec<u8>, yiaddr: u32) -> (r: (
    [u8; 6],
    u32,
))
    ensures
        broadcast_reply(flags, ciaddr) ==> r.0@ == seq![0xffu8; 6] && r.1 == 0xffffffff,
        !broadcast_reply(flags, ciaddr) ==> r.1 == yiaddr && forall|i: int|
            0 <= i < 6 ==> r.0@[i] == if i < chaddr@.len() {
                chaddr@[i]
            } else {
                0u8
            },
{
    if flags >= BROADCAST_FLAG || ciaddr == 0 {
        let mac = [0xffu8; 6];
        assert(mac@ =~= seq![0xffu8; 6]);
        return (mac, 0xffffffff);
    }
    let mut mac = [0u8; 6];
    let mut i: usize = 0;
    while i < 6
        invariant
            i <= 6,
            forall|j: int|
                0 <= j < 6 ==> mac@[j] == if j < i && j < chaddr@.len() {
                    chaddr@[j]
                } else {
                    0u8
                },
        decreases 6 - i,
    {
        if i < chaddr.len() {
            mac[i] = chaddr[i];
        }
        i = i + 1;
    }
    (mac, yiaddr)
}

} // verus!
