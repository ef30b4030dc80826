use vstd::prelude::*;

verus! {

pub const OP_BOOTREQUEST: u8 = 1;
pub const OP_BOOTREPLY: u8 = 2;
pub const HWTYPE_ETHERNET: u8 = 1;

pub const DHCPDISCOVER: u8 = 1;
pub const DHCPOFFER: u8 = 2;
pub const DHCPREQUEST: u8 = 3;
pub const DHCPDECLINE: u8 = 4;
pub const DHCPACK: u8 = 5;
pub const DHCPNAK: u8 = 6;
pub const DHCPRELEASE: u8 = 7;
pub const DHCPINFORM: u8 = 8;

pub const OPT_PAD: u8 = 0;
pub const OPT_HOSTNAME: u8 = 12;
pub const OPT_LEASETIME: u8 = 51;
pub const OPT_MESSAGETYPE: u8 = 53;
pub const OPT_SERVERID: u8 = 54;
pub const OPT_PARAMLIST: u8 = 55;
pub const OPT_CLIENTID: u8 = 61;
pub const OPT_END: u8 = 255;

/// Length of the fixed BOOTP header.
pub const HEADER_LEN: usize = 236;

/// Why a buffer is not a DHCP packet.
#[derive(Debug, PartialEq, Eq, Structural, Clone, Copy)]
pub enum ParseError {
    /// Shorter than the fixed header and the magic cookie.
    ShortPacket,
    /// The magic cookie is not `63 82 53 63`.
    BadMagic,
    /// An option runs past the end of the buffer, or no end option comes.
    TruncatedOption,
    /// The message type is missing, or a recognised option has the wrong length.
    UnknownMandatory,
}

/// An option that the codec passes through without decoding it.
pub struct RawOption {
    pub code: u8,
    pub value: Vec<u8>,
}

pub struct DhcpOptions {
    pub messagetype: u8,
    pub hostname: Option<Vec<u8>>,
    pub parameterlist: Option<Vec<u8>>,
    pub leasetime: Option<u32>,
    pub serveridentifier: Option<u32>,
    pub clientidentifier: Option<Vec<u8>>,
    /// Other options, in ascending order of code.
    pub other: Vec<RawOption>,
}

/// A DHCPv4 message. Addresses are IPv4 addresses in host order.
pub struct DhcpMessage {
    pub op: u8,
    pub htype: u8,
    pub hlen: u8,
    pub hops: u8,
    pub xid: u32,
    pub secs: u16,
    pub flags: u16,
    pub ciaddr: u32,
    pub yiaddr: u32,
    pub siaddr: u32,
    pub giaddr: u32,
    pub chaddr: Vec<u8>,
    pub sname: Vec<u8>,
    pub file: Vec<u8>,
    pub options: DhcpOptions,
}

pub open spec fn opt_view(o: Option<Vec<u8>>) -> Option<Seq<u8>> {
    match o {
        Some(v) => Some(v@),
        None => None,
    }
}

pub open spec fn others_view(s: Seq<RawOption>) -> Seq<(u8, Seq<u8>)> {
    s.map_values(|o: RawOption| (o.code, o.value@))
}

pub open spec fn is_recognised(code: u8) -> bool {
    code == OPT_HOSTNAME || code == OPT_LEASETIME || code == OPT_MESSAGETYPE || code
        == OPT_SERVERID || code == OPT_PARAMLIST || code == OPT_CLIENTID
}

pub open spec fn opt_len_ok(o: Option<Seq<u8>>) -> bool {
    match o {
        Some(v) => v.len() <= 255,
        None => true,
    }
}

/// The pass-through options are in strictly ascending order of code, none of them is
/// recognised, a pad or the end, and every value fits in an option.
pub open spec fn others_wf(s: Seq<(u8, Seq<u8>)>) -> bool {
    &&& forall|i: int, j: int| 0 <= i < j < s.len() ==> #[trigger] s[i].0 < #[trigger] s[j].0
    &&& forall|i: int|
        0 <= i < s.len() ==> {
            let (c, v) = #[trigger] s[i];
            !is_recognised(c) && c != OPT_PAD && c != OPT_END && v.len() <= 255
        }
}

impl DhcpOptions {
    pub open spec fn wf(&self) -> bool {
        &&& opt_len_ok(opt_view(self.hostname))
        &&& opt_len_ok(opt_view(self.parameterlist))
        &&& opt_len_ok(opt_view(self.clientidentifier))
        &&& others_wf(others_view(self.other@))
    }
}

pub open spec fn be16(x: u16) -> Seq<u8> {
    seq![(x / 256) as u8, (x % 256) as u8]
}

pub open spec fn be32(x: u32) -> Seq<u8> {
    seq![
        (x / 0x1000000) as u8,
        ((x / 0x10000) % 256) as u8,
        ((x / 256) % 256) as u8,
        (x % 256) as u8,
    ]
}

pub open spec fn from_be32(b: Seq<u8>) -> u32 {
    (b[0] * 0x1000000 + b[1] * 0x10000 + b[2] * 256 + b[3]) as u32
}

/// `v` cut or zero-padded to exactly `n` bytes.
pub open spec fn padded(v: Seq<u8>, n: nat) -> Seq<u8> {
    if v.len() >= n {
        v.take(n as int)
    } else {
        v + Seq::new((n - v.len()) as nat, |i: int| 0u8)
    }
}

pub open spec fn magic_cookie() -> Seq<u8> {
    seq![0x63u8, 0x82u8, 0x53u8, 0x63u8]
}

/// The first 28 bytes of the header: the one-byte fields, then `xid`, `secs`, `flags`
/// and the four addresses in network order.
pub open spec fn fixed_header(m: DhcpMessage) -> Seq<u8> {
    seq![
        m.op, m.htype, m.hlen, m.hops,
        be32(m.xid)[0], be32(m.xid)[1], be32(m.xid)[2], be32(m.xid)[3],
        be16(m.secs)[0], be16(m.secs)[1], be16(m.flags)[0], be16(m.flags)[1],
        be32(m.ciaddr)[0], be32(m.ciaddr)[1], be32(m.ciaddr)[2], be32(m.ciaddr)[3],
        be32(m.yiaddr)[0], be32(m.yiaddr)[1], be32(m.yiaddr)[2], be32(m.yiaddr)[3],
        be32(m.siaddr)[0], be32(m.siaddr)[1], be32(m.siaddr)[2], be32(m.siaddr)[3],
        be32(m.giaddr)[0], be32(m.giaddr)[1], be32(m.giaddr)[2], be32(m.giaddr)[3],
    ]
}

pub open spec fn header_bytes(m: DhcpMessage) -> Seq<u8> {
    fixed_header(m) + padded(m.chaddr@, 16) + padded(m.sname@, 64) + padded(m.file@, 128)
}

pub open spec fn tlv(code: u8, v: Seq<u8>) -> Seq<u8> {
    seq![code, v.len() as u8] + v
}

pub open spec fn opt_tlv(code: u8, o: Option<Seq<u8>>) -> Seq<u8> {
    match o {
        Some(v) => tlv(code, v),
        None => Seq::empty(),
    }
}

pub open spec fn opt_u32(o: Option<u32>) -> Option<Seq<u8>> {
    match o {
        Some(x) => Some(be32(x)),
        None => None,
    }
}

pub open spec fn others_bytes(s: Seq<(u8, Seq<u8>)>) -> Seq<u8>
    decreases s.len(),
{
    if s.len() == 0 {
        Seq::empty()
    } else {
        others_bytes(s.drop_last()) + tlv(s.last().0, s.last().1)
    }
}

/// The options on the wire: the recognised ones in a fixed order, then the others,
/// then the end option.
pub open spec fn options_bytes(o: DhcpOptions) -> Seq<u8> {
    fixed_options_bytes(o) + variable_options_bytes(o) + others_bytes(others_view(o.other@))
        + seq![OPT_END]
}

/// The message type, server identifier and lease time options.
pub open spec fn fixed_options_bytes(o: DhcpOptions) -> Seq<u8> {
    tlv(OPT_MESSAGETYPE, seq![o.messagetype]) + opt_tlv(OPT_SERVERID, opt_u32(o.serveridentifier))
        + opt_tlv(OPT_LEASETIME, opt_u32(o.leasetime))
}

/// The host name, client identifier and parameter list options.
pub open spec fn variable_options_bytes(o: DhcpOptions) -> Seq<u8> {
    opt_tlv(OPT_HOSTNAME, opt_view(o.hostname)) + opt_tlv(OPT_CLIENTID, opt_view(o.clientidentifier))
        + opt_tlv(OPT_PARAMLIST, opt_view(o.parameterlist))
}

/// A message on the wire.
pub open spec fn serialised(m: DhcpMessage) -> Seq<u8> {
    header_bytes(m) + magic_cookie() + options_bytes(m.options)
}

pub(crate) fn push_be16(out: &mut Vec<u8>, x: u16)
    ensures
        final(out)@ == old(out)@ + be16(x),
{
    out.push((x / 256) as u8);
    out.push((x % 256) as u8);
    assert(final(out)@ =~= old(out)@ + be16(x));
}

pub(crate) fn push_be32(out: &mut Vec<u8>, x: u32)
    ensures
        final(out)@ == old(out)@ + be32(x),
{
    out.push((x / 0x1000000) as u8);
    out.push(((x / 0x10000) % 256) as u8);
    out.push(((x / 256) % 256) as u8);
    out.push((x % 256) as u8);
    assert(final(out)@ =~= old(out)@ + be32(x));
}

fn push_bytes(out: &mut Vec<u8>, v: &Vec<u8>)
    ensures
        final(out)@ == old(out)@ + v@,
{
    let mut i: usize = 0;
    while i < v.len()
        invariant
            i <= v.len(),
            out@ == old(out)@ + v@.take(i as int),
        decreases v.len() - i,
    {
        out.push(v[i]);
        i = i + 1;
        assert(out@ =~= old(out)@ + v@.take(i as int));
    }
    assert(v@.take(i as int) =~= v@);
}

fn push_padded(out: &mut Vec<u8>, v: &Vec<u8>, n: usize)
    ensures
        final(out)@ == old(out)@ + padded(v@, n as nat),
{
    let mut i: usize = 0;
    while i < n
        invariant
            i <= n,
            out@ == old(out)@ + padded(v@, n as nat).take(i as int),
        decreases n - i,
    {
        if i < v.len() {
            out.push(v[i]);
        } else {
            out.push(0u8);
        }
        i = i + 1;
        assert(out@ =~= old(out)@ + padded(v@, n as nat).take(i as int));
    }
    assert(padded(v@, n as nat).take(i as int) =~= padded(v@, n as nat));
}

fn push_tlv(out: &mut Vec<u8>, code: u8, v: &Vec<u8>)
    requires
        v@.len() <= 255,
    ensures
        final(out)@ == old(out)@ + tlv(code, v@),
{
    out.push(code);
    out.push(v.len() as u8);
    let ghost mid = out@;
    push_bytes(out, v);
    assert(final(out)@ =~= old(out)@ + tlv(code, v@));
}

fn push_opt_tlv(out: &mut Vec<u8>, code: u8, o: &Option<Vec<u8>>)
    requires
        opt_len_ok(opt_view(*o)),
    ensures
        final(out)@ == old(out)@ + opt_tlv(code, opt_view(*o)),
{
    match o {
        Some(v) => push_tlv(out, code, v),
        None => {
            assert(out@ =~= old(out)@ + opt_tlv(code, opt_view(*o)));
        },
    }
}

fn push_opt_u32(out: &mut Vec<u8>, code: u8, o: Option<u32>)
    ensures
        final(out)@ == old(out)@ + opt_tlv(code, opt_u32(o)),
{
    match o {
        Some(x) => {
            out.push(code);
            out.push(4u8);
            push_be32(out, x);
            assert(final(out)@ =~= old(out)@ + opt_tlv(code, opt_u32(o)));
        },
        None => {
            assert(out@ =~= old(out)@ + opt_tlv(code, opt_u32(o)));
        },
    }
}

fn push_header(out: &mut Vec<u8>, m: &DhcpMessage)
    ensures
        final(out)@ == old(out)@ + header_bytes(*m),
{
    out.push(m.op);
    out.push(m.htype);
    out.push(m.hlen);
    out.push(m.hops);
    push_be32(out, m.xid);
    push_be16(out, m.secs);
    push_be16(out, m.flags);
    push_be32(out, m.ciaddr);
    push_be32(out, m.yiaddr);
    push_be32(out, m.siaddr);
    push_be32(out, m.giaddr);
    assert(out@ =~= old(out)@ + fixed_header(*m));
    let ghost c = out@;
    push_padded(out, &m.chaddr, 16);
    push_padded(out, &m.sname, 64);
    push_padded(out, &m.file, 128);
    assert(final(out)@ =~= old(out)@ + header_bytes(*m));
}

fn push_others(out: &mut Vec<u8>, other: &Vec<RawOption>)
    requires
        others_wf(others_view(other@)),
    ensures
        final(out)@ == old(out)@ + others_bytes(others_view(other@)),
{
    let mut i: usize = 0;
    while i < other.len()
        invariant
            i <= other.len(),
            others_wf(others_view(other@)),
            out@ == old(out)@ + others_bytes(others_view(other@).take(i as int)),
        decreases other.len() - i,
    {
        proof {
            let t = others_view(other@).take(i + 1);
            assert(t.drop_last() =~= others_view(other@).take(i as int));
            assert(t.last() == others_view(other@)[i as int]);
        }
        push_tlv(out, other[i].code, &other[i].value);
        i = i + 1;
        assert(out@ =~= old(out)@ + others_bytes(others_view(other@).take(i as int)));
    }
    assert(others_view(other@).take(i as int) =~= others_view(other@));
}

fn push_fixed_options(out: &mut Vec<u8>, o: &DhcpOptions)
    ensures
        final(out)@ == old(out)@ + fixed_options_bytes(*o),
{
    out.push(OPT_MESSAGETYPE);
    out.push(1u8);
    out.push(o.messagetype);
    let ghost a = out@;
    assert(a =~= old(out)@ + tlv(OPT_MESSAGETYPE, seq![o.messagetype]));
    push_opt_u32(out, OPT_SERVERID, o.serveridentifier);
    let ghost b = out@;
    push_opt_u32(out, OPT_LEASETIME, o.leasetime);
    assert(final(out)@ =~= old(out)@ + fixed_options_bytes(*o));
}

fn push_variable_options(out: &mut Vec<u8>, o: &DhcpOptions)
    requires
        o.wf(),
    ensures
        final(out)@ == old(out)@ + variable_options_bytes(*o),
{
    push_opt_tlv(out, OPT_HOSTNAME, &o.hostname);
    let ghost a = out@;
    push_opt_tlv(out, OPT_CLIENTID, &o.clientidentifier);
    let ghost b = out@;
    push_opt_tlv(out, OPT_PARAMLIST, &o.parameterlist);
    assert(final(out)@ =~= old(out)@ + variable_options_bytes(*o));
}

fn push_options(out: &mut Vec<u8>, o: &DhcpOptions)
    requires
        o.wf(),
    ensures
        final(out)@ == old(out)@ + options_bytes(*o),
{
    push_fixed_options(out, o);
    let ghost a = out@;
    push_variable_options(out, o);
    let ghost b = out@;
    push_others(out, &o.other);
    let ghost c = out@;
    out.push(OPT_END);
    assert(final(out)@ =~= old(out)@ + options_bytes(*o));
}

impl DhcpMessage {
    /// The message on the wire: the fixed header with `chaddr`, `sname` and `file`
    /// cut or zero-padded to their sizes, the magic cookie, then the options.
    pub fn serialise(&self) -> (r: Vec<u8>)
        requires
            self.options.wf(),
        ensures
            r@ == serialised(*self),
    {
        let mut out: Vec<u8> = Vec::new();
        push_header(&mut out, self);
        out.push(0x63u8);
        out.push(0x82u8);
        out.push(0x53u8);
        out.push(0x63u8);
        let ghost a = out@;
        push_options(&mut out, &self.options);
        assert(a =~= header_bytes(*self) + magic_cookie());
        assert(out@ =~= serialised(*self));
        out
    }
}

/// The options decoded so far while reading a packet.
pub struct OptionsView {
    pub messagetype: Option<u8>,
    pub hostname: Option<Seq<u8>>,
    pub parameterlist: Option<Seq<u8>>,
    pub leasetime: Option<u32>,
    pub serveridentifier: Option<u32>,
    pub clientidentifier: Option<Seq<u8>>,
    pub other: Seq<(u8, Seq<u8>)>,
}

/// `s`, ordered by code, with the option `(c, v)` put in its place; it replaces an
/// option with the same code.
pub open spec fn others_with(s: Seq<(u8, Seq<u8>)>, c: u8, v: Seq<u8>) -> Seq<(u8, Seq<u8>)>
    decreases s.len(),
{
    if s.len() == 0 {
        seq![(c, v)]
    } else if s[0].0 < c {
        seq![s[0]] + others_with(s.skip(1), c, v)
    } else if s[0].0 == c {
        seq![(c, v)] + s.skip(1)
    } else {
        seq![(c, v)] + s
    }
}

/// Records one option; `None` where a recognised option has the wrong length.
pub open spec fn apply_option(acc: OptionsView, code: u8, v: Seq<u8>) -> Option<OptionsView> {
    if code == OPT_MESSAGETYPE {
        if v.len() == 1 { Some(OptionsView { messagetype: Some(v[0]), ..acc }) } else { None }
    } else if code == OPT_LEASETIME {
        if v.len() == 4 { Some(OptionsView { leasetime: Some(from_be32(v)), ..acc }) } else { None }
    } else if code == OPT_SERVERID {
        if v.len() == 4 {
            Some(OptionsView { serveridentifier: Some(from_be32(v)), ..acc })
        } else {
            None
        }
    } else if code == OPT_HOSTNAME {
        Some(OptionsView { hostname: Some(v), ..acc })
    } else if code == OPT_CLIENTID {
        Some(OptionsView { clientidentifier: Some(v), ..acc })
    } else if code == OPT_PARAMLIST {
        Some(OptionsView { parameterlist: Some(v), ..acc })
    } else {
        Some(OptionsView { other: others_with(acc.other, code, v), ..acc })
    }
}

/// The option list of `b` from `pos` on: options as code, length and value, pads of a
/// single zero byte, up to the end option.
pub open spec fn options_from(b: Seq<u8>, pos: int, acc: OptionsView) -> Result<OptionsView, ParseError>
    decreases b.len() - pos,
{
    if pos < 0 || pos >= b.len() {
        Err(ParseError::TruncatedOption)
    } else if b[pos] == OPT_END {
        Ok(acc)
    } else if b[pos] == OPT_PAD {
        options_from(b, pos + 1, acc)
    } else if pos + 2 > b.len() || pos + 2 + b[pos + 1] > b.len() {
        Err(ParseError::TruncatedOption)
    } else {
        let len = b[pos + 1] as int;
        match apply_option(acc, b[pos], b.subrange(pos + 2, pos + 2 + len)) {
            Some(next) => options_from(b, pos + 2 + len, next),
            None => Err(ParseError::UnknownMandatory),
        }
    }
}

pub open spec fn no_options() -> OptionsView {
    OptionsView {
        messagetype: None,
        hostname: None,
        parameterlist: None,
        leasetime: None,
        serveridentifier: None,
        clientidentifier: None,
        other: Seq::empty(),
    }
}

/// The options of `b`, a buffer that holds at least the fixed header and the cookie.
pub open spec fn options_of(b: Seq<u8>) -> Result<OptionsView, ParseError> {
    options_from(b, HEADER_LEN + 4, no_options())
}

impl DhcpOptions {
    pub open spec fn view_of(&self) -> OptionsView {
        OptionsView {
            messagetype: Some(self.messagetype),
            hostname: opt_view(self.hostname),
            parameterlist: opt_view(self.parameterlist),
            leasetime: self.leasetime,
            serveridentifier: self.serveridentifier,
            clientidentifier: opt_view(self.clientidentifier),
            other: others_view(self.other@),
        }
    }
}

pub open spec fn be32_at(b: Seq<u8>, pos: int) -> u32 {
    from_be32(b.subrange(pos, pos + 4))
}

pub open spec fn be16_at(b: Seq<u8>, pos: int) -> u16 {
    (b[pos] * 256 + b[pos + 1]) as u16
}

/// What `parse` makes of `b` where it succeeds: the header fields at their offsets,
/// and the options that the option list gives, with a message type.
pub open spec fn parsed_from(b: Seq<u8>, m: DhcpMessage) -> bool {
    &&& m.op == b[0] && m.htype == b[1] && m.hlen == b[2] && m.hops == b[3]
    &&& m.xid == be32_at(b, 4)
    &&& m.secs == be16_at(b, 8)
    &&& m.flags == be16_at(b, 10)
    &&& m.ciaddr == be32_at(b, 12)
    &&& m.yiaddr == be32_at(b, 16)
    &&& m.siaddr == be32_at(b, 20)
    &&& m.giaddr == be32_at(b, 24)
    &&& m.chaddr@ == b.subrange(28, 44)
    &&& m.sname@ == b.subrange(44, 108)
    &&& m.file@ == b.subrange(108, 236)
    &&& options_of(b) == Ok::<OptionsView, ParseError>(m.options.view_of())
}

/// How `parse` fails on `b`, if it does.
pub open spec fn parse_error_of(b: Seq<u8>) -> Option<ParseError> {
    if b.len() < HEADER_LEN + 4 {
        Some(ParseError::ShortPacket)
    } else if b.subrange(HEADER_LEN as int, HEADER_LEN + 4) != magic_cookie() {
        Some(ParseError::BadMagic)
    } else {
        match options_of(b) {
            Err(e) => Some(e),
            Ok(o) => if o.messagetype is None {
                Some(ParseError::UnknownMandatory)
            } else {
                None
            },
        }
    }
}

fn read_be32(b: &[u8], pos: usize) -> (r: u32)
    requires
        pos + 4 <= b@.len(),
    ensures
        r == be32_at(b@, pos as int),
{
    let r = (b[pos] as u32) * 0x1000000 + (b[pos + 1] as u32) * 0x10000 + (b[pos + 2] as u32)
        * 256 + (b[pos + 3] as u32);
    assert(b@.subrange(pos as int, pos + 4)[0] == b@[pos as int]);
    assert(b@.subrange(pos as int, pos + 4)[1] == b@[pos + 1]);
    assert(b@.subrange(pos as int, pos + 4)[2] == b@[pos + 2]);
    assert(b@.subrange(pos as int, pos + 4)[3] == b@[pos + 3]);
    r
}

fn copy_range(b: &[u8], start: usize, end: usize) -> (r: Vec<u8>)
    requires
        start <= end <= b@.len(),
    ensures
        r@ == b@.subrange(start as int, end as int),
{
    let mut r: Vec<u8> = Vec::new();
    let mut i: usize = start;
    while i < end
        invariant
            start <= i <= end,
            end <= b@.len(),
            r@ == b@.subrange(start as int, i as int),
        decreases end - i,
    {
        r.push(b[i]);
        i = i + 1;
        assert(r@ =~= b@.subrange(start as int, i as int));
    }
    r
}

proof fn lemma_others_with_split(s: Seq<(u8, Seq<u8>)>, c: u8, v: Seq<u8>, i: int)
    requires
        0 <= i <= s.len(),
        forall|j: int| 0 <= j < i ==> (#[trigger] s[j]).0 < c,
        i < s.len() ==> s[i].0 >= c,
    ensures
        others_with(s, c, v) == if i < s.len() && s[i].0 == c {
            s.take(i) + seq![(c, v)] + s.skip(i + 1)
        } else {
            s.take(i) + seq![(c, v)] + s.skip(i)
        },
    decreases i,
{
    if i == 0 {
        assert(s.take(0) + seq![(c, v)] + s.skip(1) =~= seq![(c, v)] + s.skip(1));
        assert(s.take(0) + seq![(c, v)] + s.skip(0) =~= seq![(c, v)] + s);
    } else {
        let t = s.skip(1);
        assert forall|j: int| 0 <= j < i - 1 implies (#[trigger] t[j]).0 < c by {
            assert(t[j] == s[j + 1]);
        }
        lemma_others_with_split(t, c, v, i - 1);
        assert(s[0].0 < c);
        if i < s.len() && s[i].0 == c {
            assert(seq![s[0]] + (t.take(i - 1) + seq![(c, v)] + t.skip(i)) =~= s.take(i) + seq![
                (c, v),
            ] + s.skip(i + 1));
        } else {
            assert(seq![s[0]] + (t.take(i - 1) + seq![(c, v)] + t.skip(i - 1)) =~= s.take(i)
                + seq![(c, v)] + s.skip(i));
        }
    }
}

fn insert_other(other: &mut Vec<RawOption>, code: u8, value: Vec<u8>)
    requires
        others_wf(others_view(old(other)@)),
        !is_recognised(code) && code != OPT_PAD && code != OPT_END,
        value@.len() <= 255,
    ensures
        others_view(final(other)@) == others_with(others_view(old(other)@), code, value@),
        others_wf(others_view(final(other)@)),
{
    let ghost s = others_view(other@);
    let mut i: usize = 0;
    while i < other.len() && other[i].code < code
        invariant
            i <= other.len(),
            s == others_view(other@),
            forall|j: int| 0 <= j < i ==> (#[trigger] s[j]).0 < code,
        decreases other.len() - i,
    {
        i = i + 1;
    }
    proof {
        lemma_others_with_split(s, code, value@, i as int);
    }
    if i < other.len() && other[i].code == code {
        other.set(i, RawOption { code, value });
        assert(others_view(other@) =~= s.take(i as int) + seq![(code, value@)] + s.skip(i + 1));
        let ghost t = others_view(other@);
        assert forall|a: int, b: int| 0 <= a < b < t.len() implies #[trigger] t[a].0 < #[trigger] t[b].0 by {
            if a < i && b > i {
                assert(s[a].0 < code);
            } else if a == i && b > i {
                assert(t[b] == s[b]);
                assert(s[i as int].0 < s[b].0);
            } else if a < i && b == i {
                assert(t[a] == s[a]);
            } else {
                assert(t[a] == s[a] && t[b] == s[b]);
            }
        }
    } else {
        other.insert(i, RawOption { code, value });
        assert(others_view(other@) =~= s.take(i as int) + seq![(code, value@)] + s.skip(
            i as int,
        ));
        let ghost t = others_view(other@);
        assert forall|a: int, b: int| 0 <= a < b < t.len() implies #[trigger] t[a].0 < #[trigger] t[b].0 by {
            if b < i {
                assert(t[a] == s[a] && t[b] == s[b]);
            } else if a < i && b == i {
                assert(t[a] == s[a]);
            } else if a < i && b > i {
                assert(t[a] == s[a] && t[b] == s[b - 1]);
                assert(s[i as int].0 > code);
                if b - 1 > i {
                    assert(s[i as int].0 < s[b - 1].0);
                }
            } else if a == i {
                assert(t[b] == s[b - 1]);
                if b - 1 > i {
                    assert(s[i as int].0 < s[b - 1].0);
                }
            } else {
                assert(t[a] == s[a - 1] && t[b] == s[b - 1]);
            }
        }
        assert forall|a: int| 0 <= a < t.len() implies {
            let (c, v) = #[trigger] t[a];
            !is_recognised(c) && c != OPT_PAD && c != OPT_END && v.len() <= 255
        } by {
            if a > i {
                assert(t[a] == s[a - 1]);
            }
        }
    }
}

/// The options decoded so far, as `parse` holds them.
struct OptionsAcc {
    messagetype: Option<u8>,
    hostname: Option<Vec<u8>>,
    parameterlist: Option<Vec<u8>>,
    leasetime: Option<u32>,
    serveridentifier: Option<u32>,
    clientidentifier: Option<Vec<u8>>,
    other: Vec<RawOption>,
}

/// Values of the recognised options fit in an option, and the other options are
/// well formed.
pub open spec fn options_view_wf(o: OptionsView) -> bool {
    &&& opt_len_ok(o.hostname)
    &&& opt_len_ok(o.parameterlist)
    &&& opt_len_ok(o.clientidentifier)
    &&& others_wf(o.other)
}

impl OptionsAcc {
    spec fn view_of(&self) -> OptionsView {
        OptionsView {
            messagetype: self.messagetype,
            hostname: opt_view(self.hostname),
            parameterlist: opt_view(self.parameterlist),
            leasetime: self.leasetime,
            serveridentifier: self.serveridentifier,
            clientidentifier: opt_view(self.clientidentifier),
            other: others_view(self.other@),
        }
    }

    fn apply(&mut self, b: &[u8], code: u8, start: usize, len: usize) -> (ok: bool)
        requires
            start + len <= b@.len(),
            len <= 255,
            code != OPT_PAD && code != OPT_END,
            options_view_wf(old(self).view_of()),
        ensures
            options_view_wf(final(self).view_of()),
            match apply_option(
                old(self).view_of(),
                code,
                b@.subrange(start as int, start + len),
            ) {
                Some(n) => ok && final(self).view_of() == n,
                None => !ok,
            },
    {
        let n = b.len();
        if code == OPT_MESSAGETYPE {
            if len != 1 {
                return false;
            }
            self.messagetype = Some(b[start]);
        } else if code == OPT_LEASETIME {
            if len != 4 {
                return false;
            }
            self.leasetime = Some(read_be32(b, start));
        } else if code == OPT_SERVERID {
            if len != 4 {
                return false;
            }
            self.serveridentifier = Some(read_be32(b, start));
        } else if code == OPT_HOSTNAME {
            self.hostname = Some(copy_range(b, start, start + len));
        } else if code == OPT_CLIENTID {
            self.clientidentifier = Some(copy_range(b, start, start + len));
        } else if code == OPT_PARAMLIST {
            self.parameterlist = Some(copy_range(b, start, start + len));
        } else {
            let v = copy_range(b, start, start + len);
            insert_other(&mut self.other, code, v);
        }
        true
    }
}

fn parse_options(b: &[u8]) -> (r: Result<OptionsAcc, ParseError>)
    requires
        b@.len() >= HEADER_LEN + 4,
    ensures
        match r {
            Ok(acc) => options_of(b@) == Ok::<OptionsView, ParseError>(acc.view_of()) && options_view_wf(acc.view_of()),
            Err(e) => options_of(b@) == Err::<OptionsView, ParseError>(e),
        },
{
    let mut acc = OptionsAcc {
        messagetype: None,
        hostname: None,
        parameterlist: None,
        leasetime: None,
        serveridentifier: None,
        clientidentifier: None,
        other: Vec::new(),
    };
    assert(others_view(acc.other@) =~= Seq::<(u8, Seq<u8>)>::empty());
    assert(acc.view_of() == no_options());
    let mut pos: usize = HEADER_LEN + 4;
    while pos < b.len()
        invariant
            pos <= b@.len(),
            options_of(b@) == options_from(b@, pos as int, acc.view_of()),
            options_view_wf(acc.view_of()),
        decreases b@.len() - pos,
    {
        let code = b[pos];
        if code == OPT_END {
            return Ok(acc);
        }
        if code == OPT_PAD {
            pos = pos + 1;
        } else {
            if b.len() - pos < 2 {
                return Err(ParseError::TruncatedOption);
            }
            let len = b[pos + 1] as usize;
            if len > b.len() - pos - 2 {
                return Err(ParseError::TruncatedOption);
            }
            if !acc.apply(b, code, pos + 2, len) {
                return Err(ParseError::UnknownMandatory);
            }
            pos = pos + 2 + len;
        }
    }
    Err(ParseError::TruncatedOption)
}

/// Decodes a DHCP packet: the fixed header, the magic cookie, then the options up to
/// the end option. Options that are not recognised are kept, ordered by code.
pub fn parse(b: &[u8]) -> (r: Result<DhcpMessage, ParseError>)
    ensures
        match r {
            Ok(m) => parse_error_of(b@) is None && parsed_from(b@, m) && m.options.wf(),
            Err(e) => parse_error_of(b@) == Some(e),
        },
{
    if b.len() < HEADER_LEN + 4 {
        return Err(ParseError::ShortPacket);
    }
    if b[236] != 0x63 || b[237] != 0x82 || b[238] != 0x53 || b[239] != 0x63 {
        assert(b@.subrange(236, 240) != magic_cookie()) by {
            assert(b@.subrange(236, 240)[0] == b@[236]);
            assert(b@.subrange(236, 240)[1] == b@[237]);
            assert(b@.subrange(236, 240)[2] == b@[238]);
            assert(b@.subrange(236, 240)[3] == b@[239]);
        }
        return Err(ParseError::BadMagic);
    }
    assert(b@.subrange(236, 240) =~= magic_cookie());
    let acc = match parse_options(b) {
        Ok(acc) => acc,
        Err(e) => return Err(e),
    };
    let messagetype = match acc.messagetype {
        Some(t) => t,
        None => return Err(ParseError::UnknownMandatory),
    };
    let m = DhcpMessage {
        op: b[0],
        htype: b[1],
        hlen: b[2],
        hops: b[3],
        xid: read_be32(b, 4),
        secs: (b[8] as u16) * 256 + (b[9] as u16),
        flags: (b[10] as u16) * 256 + (b[11] as u16),
        ciaddr: read_be32(b, 12),
        yiaddr: read_be32(b, 16),
        siaddr: read_be32(b, 20),
        giaddr: read_be32(b, 24),
        chaddr: copy_range(b, 28, 44),
        sname: copy_range(b, 44, 108),
        file: copy_range(b, 108, 236),
        options: DhcpOptions {
            messagetype,
            hostname: acc.hostname,
            parameterlist: acc.parameterlist,
            leasetime: acc.leasetime,
            serveridentifier: acc.serveridentifier,
            clientidentifier: acc.clientidentifier,
            other: acc.other,
        },
    };
    proof {
        assert(m.options.view_of() =~= acc.view_of());
    }
    Ok(m)
}

proof fn lemma_be32_round(x: u32)
    ensures
        from_be32(be32(x)) == x,
{
    let b = be32(x);
    assert(b[0] == x / 0x1000000);
    assert(b[1] == (x / 0x10000) % 256);
    assert(b[2] == (x / 256) % 256);
    assert(b[3] == x % 256);
    assert(x / 0x10000 == (x / 0x1000000) * 256 + (x / 0x10000) % 256);
    assert(x / 256 == (x / 0x10000) * 256 + (x / 256) % 256);
    assert(x == (x / 256) * 256 + x % 256);
}

proof fn lemma_shift(p: Seq<u8>, q: Seq<u8>, pos: int, acc: OptionsView)
    requires
        0 <= pos,
    ensures
        options_from(p + q, p.len() + pos, acc) == options_from(q, pos, acc),
    decreases q.len() - pos,
{
    let b = p + q;
    let k = p.len() + pos;
    if pos >= q.len() {
    } else {
        assert(b[k] == q[pos]);
        if q[pos] == OPT_END {
        } else if q[pos] == OPT_PAD {
            lemma_shift(p, q, pos + 1, acc);
        } else if pos + 2 > q.len() || pos + 2 + q[pos + 1] > q.len() {
            if pos + 2 <= q.len() {
                assert(b[k + 1] == q[pos + 1]);
            }
        } else {
            assert(b[k + 1] == q[pos + 1]);
            let len = q[pos + 1] as int;
            assert(b.subrange(k + 2, k + 2 + len) =~= q.subrange(pos + 2, pos + 2 + len));
            match apply_option(acc, q[pos], q.subrange(pos + 2, pos + 2 + len)) {
                Some(n) => lemma_shift(p, q, pos + 2 + len, n),
                None => {},
            }
        }
    }
}

proof fn lemma_tlv_then(c: u8, v: Seq<u8>, rest: Seq<u8>, acc: OptionsView)
    requires
        c != OPT_PAD && c != OPT_END,
        v.len() <= 255,
    ensures
        options_from(tlv(c, v) + rest, 0, acc) == match apply_option(acc, c, v) {
            Some(n) => options_from(rest, 0, n),
            None => Err(ParseError::UnknownMandatory),
        },
{
    let t = tlv(c, v);
    let b = t + rest;
    assert(b[0] == c);
    assert(b[1] == v.len());
    assert(b.subrange(2, 2 + v.len() as int) =~= v);
    match apply_option(acc, c, v) {
        Some(n) => lemma_shift(t, rest, 0, n),
        None => {},
    }
}

proof fn lemma_others_with_push(s: Seq<(u8, Seq<u8>)>, c: u8, v: Seq<u8>)
    requires
        forall|i: int| 0 <= i < s.len() ==> (#[trigger] s[i]).0 < c,
    ensures
        others_with(s, c, v) == s.push((c, v)),
    decreases s.len(),
{
    if s.len() > 0 {
        let t = s.skip(1);
        assert forall|i: int| 0 <= i < t.len() implies (#[trigger] t[i]).0 < c by {
            assert(t[i] == s[i + 1]);
        }
        lemma_others_with_push(t, c, v);
        assert(seq![s[0]] + t.push((c, v)) =~= s.push((c, v)));
    }
}

proof fn lemma_others_then(s: Seq<(u8, Seq<u8>)>, rest: Seq<u8>, acc: OptionsView)
    requires
        others_wf(s),
        acc.other.len() == 0,
    ensures
        options_from(others_bytes(s) + rest, 0, acc) == options_from(
            rest,
            0,
            OptionsView { other: s, ..acc },
        ),
    decreases s.len(),
{
    if s.len() == 0 {
        assert(others_bytes(s) + rest =~= rest);
        assert(OptionsView { other: s, ..acc } == acc) by {
            assert(s =~= acc.other);
        }
    } else {
        let s2 = s.drop_last();
        let (c, v) = s.last();
        assert(others_wf(s2)) by {
            assert forall|i: int, j: int| 0 <= i < j < s2.len() implies #[trigger] s2[i].0
                < #[trigger] s2[j].0 by {
                assert(s2[i] == s[i] && s2[j] == s[j]);
            }
            assert forall|i: int| 0 <= i < s2.len() implies {
                let (c, v) = #[trigger] s2[i];
                !is_recognised(c) && c != OPT_PAD && c != OPT_END && v.len() <= 255
            } by {
                assert(s2[i] == s[i]);
            }
        }
        let tail = tlv(c, v) + rest;
        assert(others_bytes(s) + rest =~= others_bytes(s2) + tail);
        lemma_others_then(s2, tail, acc);
        let mid = OptionsView { other: s2, ..acc };
        assert(s[s.len() - 1] == (c, v));
        lemma_tlv_then(c, v, rest, mid);
        assert forall|i: int| 0 <= i < s2.len() implies (#[trigger] s2[i]).0 < c by {
            assert(s2[i] == s[i]);
        }
        lemma_others_with_push(s2, c, v);
        assert(s2.push((c, v)) =~= s);
    }
}

proof fn lemma_opt_then(c: u8, o: Option<Seq<u8>>, rest: Seq<u8>, acc: OptionsView)
    requires
        c != OPT_PAD && c != OPT_END,
        opt_len_ok(o),
    ensures
        options_from(opt_tlv(c, o) + rest, 0, acc) == match o {
            Some(v) => match apply_option(acc, c, v) {
                Some(n) => options_from(rest, 0, n),
                None => Err(ParseError::UnknownMandatory),
            },
            None => options_from(rest, 0, acc),
        },
{
    match o {
        Some(v) => lemma_tlv_then(c, v, rest, acc),
        None => {
            assert(opt_tlv(c, o) + rest =~= rest);
        },
    }
}

proof fn lemma_assoc3(a: Seq<u8>, b: Seq<u8>, c: Seq<u8>, rest: Seq<u8>)
    ensures
        a + b + c + rest == a + (b + (c + rest)),
{
    assert(a + b + c + rest =~= a + (b + (c + rest)));
}

proof fn lemma_options_round(o: DhcpOptions)
    requires
        o.wf(),
    ensures
        options_from(options_bytes(o), 0, no_options()) == Ok::<OptionsView, ParseError>(
            o.view_of(),
        ),
{
    let end = seq![OPT_END];
    let t0 = tlv(OPT_MESSAGETYPE, seq![o.messagetype]);
    let t1 = opt_tlv(OPT_SERVERID, opt_u32(o.serveridentifier));
    let t2 = opt_tlv(OPT_LEASETIME, opt_u32(o.leasetime));
    let t3 = opt_tlv(OPT_HOSTNAME, opt_view(o.hostname));
    let t4 = opt_tlv(OPT_CLIENTID, opt_view(o.clientidentifier));
    let t5 = opt_tlv(OPT_PARAMLIST, opt_view(o.parameterlist));
    let ob = others_bytes(others_view(o.other@));
    let r6 = ob + end;
    let r5 = t5 + r6;
    let r4 = t4 + r5;
    let r3 = t3 + r4;
    let r2 = t2 + r3;
    let r1 = t1 + r2;
    let r0 = t0 + r1;
    assert(options_bytes(o) == fixed_options_bytes(o) + variable_options_bytes(o) + ob + end);
    assert(fixed_options_bytes(o) + variable_options_bytes(o) + ob + end =~= fixed_options_bytes(o)
        + (variable_options_bytes(o) + r6));
    lemma_assoc3(t3, t4, t5, r6);
    assert(variable_options_bytes(o) + r6 == r3);
    lemma_assoc3(t0, t1, t2, r3);
    assert(options_bytes(o) == r0);
    let a0 = no_options();
    let a1 = OptionsView { messagetype: Some(o.messagetype), ..a0 };
    lemma_tlv_then(OPT_MESSAGETYPE, seq![o.messagetype], r1, a0);
    assert(options_from(r0, 0, a0) == options_from(r1, 0, a1));
    let a2 = OptionsView { serveridentifier: o.serveridentifier, ..a1 };
    lemma_opt_then(OPT_SERVERID, opt_u32(o.serveridentifier), r2, a1);
    if o.serveridentifier is Some {
        lemma_be32_round(o.serveridentifier->Some_0);
    }
    assert(options_from(r1, 0, a1) == options_from(r2, 0, a2));
    let a3 = OptionsView { leasetime: o.leasetime, ..a2 };
    lemma_opt_then(OPT_LEASETIME, opt_u32(o.leasetime), r3, a2);
    if o.leasetime is Some {
        lemma_be32_round(o.leasetime->Some_0);
    }
    assert(options_from(r2, 0, a2) == options_from(r3, 0, a3));
    let a4 = OptionsView { hostname: opt_view(o.hostname), ..a3 };
    lemma_opt_then(OPT_HOSTNAME, opt_view(o.hostname), r4, a3);
    assert(options_from(r3, 0, a3) == options_from(r4, 0, a4));
    let a5 = OptionsView { clientidentifier: opt_view(o.clientidentifier), ..a4 };
    lemma_opt_then(OPT_CLIENTID, opt_view(o.clientidentifier), r5, a4);
    assert(options_from(r4, 0, a4) == options_from(r5, 0, a5));
    let a6 = OptionsView { parameterlist: opt_view(o.parameterlist), ..a5 };
    lemma_opt_then(OPT_PARAMLIST, opt_view(o.parameterlist), r6, a5);
    assert(options_from(r5, 0, a5) == options_from(r6, 0, a6));
    lemma_others_then(others_view(o.other@), end, a6);
    let a7 = OptionsView { other: others_view(o.other@), ..a6 };
    assert(options_from(end, 0, a7) == Ok::<OptionsView, ParseError>(a7));
    assert(a7 == o.view_of());
}

proof fn lemma_header_fields(m: DhcpMessage, b: Seq<u8>)
    requires
        m.chaddr@.len() == 16,
        m.sname@.len() == 64,
        m.file@.len() == 128,
        b.len() >= HEADER_LEN,
        b.subrange(0, HEADER_LEN as int) == header_bytes(m),
    ensures
        b[0] == m.op && b[1] == m.htype && b[2] == m.hlen && b[3] == m.hops,
        b.subrange(4, 8) == be32(m.xid),
        b[8] == m.secs / 256 && b[9] == m.secs % 256,
        b[10] == m.flags / 256 && b[11] == m.flags % 256,
        b.subrange(12, 16) == be32(m.ciaddr),
        b.subrange(16, 20) == be32(m.yiaddr),
        b.subrange(20, 24) == be32(m.siaddr),
        b.subrange(24, 28) == be32(m.giaddr),
        b.subrange(28, 44) == m.chaddr@,
        b.subrange(44, 108) == m.sname@,
        b.subrange(108, 236) == m.file@,
{
    let h = header_bytes(m);
    let f = fixed_header(m);
    assert(padded(m.chaddr@, 16) =~= m.chaddr@);
    assert(padded(m.sname@, 64) =~= m.sname@);
    assert(padded(m.file@, 128) =~= m.file@);
    assert(h.len() == 236);
    assert forall|i: int| 0 <= i < 236 implies b[i] == #[trigger] h[i] by {
        assert(b.subrange(0, 236)[i] == b[i]);
    }
    let fc = f + m.chaddr@;
    let fcs = fc + m.sname@;
    assert(h == fcs + m.file@);
    assert forall|i: int| 0 <= i < 28 implies b[i] == #[trigger] f[i] by {
        assert(h[i] == fcs[i]);
        assert(fcs[i] == fc[i]);
    }
    assert forall|i: int| 0 <= i < 16 implies b[28 + i] == #[trigger] m.chaddr@[i] by {
        assert(h[28 + i] == fcs[28 + i]);
        assert(fcs[28 + i] == fc[28 + i]);
    }
    assert forall|i: int| 0 <= i < 64 implies b[44 + i] == #[trigger] m.sname@[i] by {
        assert(h[44 + i] == fcs[44 + i]);
    }
    assert forall|i: int| 0 <= i < 128 implies b[108 + i] == #[trigger] m.file@[i] by {
        assert(h[108 + i] == (fcs + m.file@)[108 + i]);
    }
    assert(b.subrange(4, 8) =~= be32(m.xid));
    assert(b.subrange(12, 16) =~= be32(m.ciaddr));
    assert(b.subrange(16, 20) =~= be32(m.yiaddr));
    assert(b.subrange(20, 24) =~= be32(m.siaddr));
    assert(b.subrange(24, 28) =~= be32(m.giaddr));
    assert(b.subrange(28, 44) =~= m.chaddr@);
    assert(b.subrange(44, 108) =~= m.sname@);
    assert(b.subrange(108, 236) =~= m.file@);
}

/// Round trip: a packet in the codec's canonical form (a message whose `chaddr`,
/// `sname` and `file` have their full sizes and whose options are well formed, as
/// `serialise` writes it) parses, and serialising what it parses to gives the same
/// bytes back.
pub proof fn lemma_round_trip(m: DhcpMessage, p: DhcpMessage)
    requires
        m.options.wf(),
        m.chaddr@.len() == 16,
        m.sname@.len() == 64,
        m.file@.len() == 128,
        parsed_from(serialised(m), p),
    ensures
        parse_error_of(serialised(m)) is None,
        serialised(p) == serialised(m),
{
    let b = serialised(m);
    let pre = header_bytes(m) + magic_cookie();
    assert(header_bytes(m).len() == 236);
    assert(b.subrange(0, 236) =~= header_bytes(m));
    lemma_header_fields(m, b);
    assert(b.subrange(236, 240) =~= magic_cookie());
    lemma_options_round(m.options);
    lemma_shift(pre, options_bytes(m.options), 0, no_options());
    assert(options_of(b) == Ok::<OptionsView, ParseError>(m.options.view_of()));
    lemma_be32_round(m.xid);
    lemma_be32_round(m.ciaddr);
    lemma_be32_round(m.yiaddr);
    lemma_be32_round(m.siaddr);
    lemma_be32_round(m.giaddr);
    assert(p.secs == m.secs);
    assert(p.flags == m.flags);
    assert(p.chaddr@ == m.chaddr@);
    assert(header_bytes(p) == header_bytes(m));
    assert(p.options.view_of() == m.options.view_of());
    assert(opt_view(p.options.hostname) == opt_view(m.options.hostname));
    assert(others_view(p.options.other@) == others_view(m.options.other@));
    assert(options_bytes(p.options) == options_bytes(m.options));
}

} // verus!
