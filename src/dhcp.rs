use vstd::prelude::*;

use crate::dhcppkt::{
    opt_view, parse, parse_error_of, parsed_from, DhcpMessage, DhcpOptions, ParseError, DHCPACK, DHCPDISCOVER, DHCPOFFER, DHCPREQUEST, HWTYPE_ETHERNET,
    OP_BOOTREPLY,
};

verus! {

/// An address handed to a client, for `lease` seconds.
pub struct Lease {
    pub ip: u32,
    pub lease: u32,
}

/// A pool of free addresses, all leased for the same positive number of seconds.
pub struct Pool {
    free: Vec<u32>,
    lease_secs: u32,
}

impl Pool {
    pub closed spec fn free(&self) -> Seq<u32> {
        self.free@
    }

    pub closed spec fn lease_secs(&self) -> u32 {
        self.lease_secs
    }

    pub open spec fn wf(&self) -> bool {
        self.lease_secs() > 0
    }

    /// A pool of `addresses`, leased for `lease_secs` seconds; none for a zero lease time.
    pub fn new(addresses: Vec<u32>, lease_secs: u32) -> (r: Option<Pool>)
        ensures
            lease_secs == 0 <==> r is None,
            r matches Some(p) ==> p.wf() && p.free() == addresses@ && p.lease_secs() == lease_secs,
    {
        if lease_secs == 0 {
            None
        } else {
            Some(Pool { free: addresses, lease_secs })
        }
    }

    /// Takes the most recently added free address, if there is one.
    pub fn allocate_address(&mut self) -> (r: Option<Lease>)
        ensures
            final(self).lease_secs() == old(self).lease_secs(),
            old(self).free().len() == 0 ==> r is None && final(self).free() == old(self).free(),
            old(self).free().len() > 0 ==> (r matches Some(l) && l.ip == old(self).free().last()
                && l.lease == old(self).lease_secs() && final(self).free() == old(
                self,
            ).free().drop_last()),
    {
        match self.free.pop() {
            Some(ip) => Some(Lease { ip, lease: self.lease_secs }),
            None => None,
        }
    }
}

/// The server identities this process has advertised.
pub struct ServerIds {
    ids: Vec<u32>,
}

impl View for ServerIds {
    type V = Set<u32>;

    closed spec fn view(&self) -> Set<u32> {
        self.ids@.to_set()
    }
}

impl ServerIds {
    pub fn new() -> (r: ServerIds)
        ensures
            r@ == Set::<u32>::empty(),
    {
        let r = ServerIds { ids: Vec::new() };
        assert(r@ =~= Set::<u32>::empty()) by {
            assert forall|x: u32| !r.ids@.to_set().contains(x) by {}
        }
        r
    }

    pub fn contains(&self, ip: u32) -> (r: bool)
        ensures
            r == self@.contains(ip),
    {
        let mut i: usize = 0;
        while i < self.ids.len()
            invariant
                i <= self.ids.len(),
                forall|j: int| 0 <= j < i ==> self.ids@[j] != ip,
            decreases self.ids.len() - i,
        {
            if self.ids[i] == ip {
                assert(self.ids@.contains(ip));
                return true;
            }
            i = i + 1;
        }
        assert(!self.ids@.contains(ip));
        false
    }

    pub fn insert(&mut self, ip: u32)
        ensures
            final(self)@ == old(self)@.insert(ip),
    {
        if !self.contains(ip) {
            let ghost prev = self.ids@;
            self.ids.push(ip);
            assert(self.ids@.to_set() =~= prev.to_set().insert(ip)) by {
                assert forall|x: u32| self.ids@.contains(x) <==> prev.contains(x) || x == ip by {
                    if self.ids@.contains(x) {
                        let k = choose|k: int| 0 <= k < self.ids@.len() && self.ids@[k] == x;
                        if k < prev.len() {
                            assert(prev[k] == x);
                        }
                    }
                    if prev.contains(x) {
                        let k = choose|k: int| 0 <= k < prev.len() && prev[k] == x;
                        assert(self.ids@[k] == x);
                    }
                    if x == ip {
                        assert(self.ids@[prev.len() as int] == ip);
                    }
                }
            }
        } else {
            assert(self@ =~= old(self)@.insert(ip));
        }
    }

    /// A copy taken to check a request against, so that no lock is held meanwhile.
    pub fn snapshot(&self) -> (r: ServerIds)
        ensures
            r@ == self@,
    {
        let mut ids: Vec<u32> = Vec::new();
        let mut i: usize = 0;
        while i < self.ids.len()
            invariant
                i <= self.ids.len(),
                ids@ == self.ids@.take(i as int),
            decreases self.ids.len() - i,
        {
            ids.push(self.ids[i]);
            i = i + 1;
            assert(ids@ =~= self.ids@.take(i as int));
        }
        assert(ids@ =~= self.ids@);
        ServerIds { ids }
    }
}

/// Where a packet came from.
pub enum SourceAddr {
    V4 { ip: u32, port: u16 },
    V6,
}

#[derive(Debug)]
pub enum DhcpError {
    UnknownMessageType(u8),
    NoLeasesAvailable,
    ParseError(ParseError),
    InternalError(String),
    OtherServer,
}

/// The fields that every reply takes from its request or fixes.
pub open spec fn reply_common(r: DhcpMessage, req: DhcpMessage) -> bool {
    &&& r.op == OP_BOOTREPLY
    &&& r.htype == HWTYPE_ETHERNET
    &&& r.hlen == 6
    &&& r.hops == 0
    &&& r.xid == req.xid
    &&& r.secs == 0
    &&& r.flags == req.flags
    &&& r.siaddr == 0
    &&& r.giaddr == req.giaddr
    &&& r.chaddr@ == req.chaddr@
    &&& r.sname@.len() == 0
    &&& r.file@.len() == 0
    &&& opt_view(r.options.hostname) == opt_view(req.options.hostname)
    &&& opt_view(r.options.clientidentifier) == opt_view(req.options.clientidentifier)
    &&& r.options.parameterlist is None
    &&& r.options.other@.len() == 0
}

/// What answering a DISCOVER does: an OFFER of the pool's next free address, with the
/// address the request came to as server identifier.
pub open spec fn discover_outcome(
    req: DhcpMessage,
    from: SourceAddr,
    old_free: Seq<u32>,
    lease_secs: u32,
    new_free: Seq<u32>,
    r: Result<DhcpMessage, DhcpError>,
) -> bool {
    match from {
        SourceAddr::V6 => new_free == old_free && r matches Err(DhcpError::InternalError(_)),
        SourceAddr::V4 { ip, port } => if old_free.len() == 0 {
            new_free == old_free && r == Err::<DhcpMessage, DhcpError>(
                DhcpError::NoLeasesAvailable,
            )
        } else {
            &&& new_free == old_free.drop_last()
            &&& r matches Ok(m)
            &&& reply_common(m, req)
            &&& m.ciaddr == 0
            &&& m.yiaddr == old_free.last()
            &&& m.options.messagetype == DHCPOFFER
            &&& m.options.serveridentifier == Some(ip)
            &&& m.options.leasetime is None
        },
    }
}

/// What answering a REQUEST does: a request for another server is refused without
/// touching the pool; otherwise an ACK of the pool's next free address with its lease.
pub open spec fn request_outcome(
    req: DhcpMessage,
    from: SourceAddr,
    serverids: Set<u32>,
    old_free: Seq<u32>,
    lease_secs: u32,
    new_free: Seq<u32>,
    r: Result<DhcpMessage, DhcpError>,
) -> bool {
    if (req.options.serveridentifier matches Some(si) && !serverids.contains(si)) || from is V6 {
        new_free == old_free && r == Err::<DhcpMessage, DhcpError>(DhcpError::OtherServer)
    } else if old_free.len() == 0 {
        new_free == old_free && r == Err::<DhcpMessage, DhcpError>(DhcpError::NoLeasesAvailable)
    } else {
        &&& new_free == old_free.drop_last()
        &&& r matches Ok(m)
        &&& reply_common(m, req)
        &&& m.ciaddr == req.ciaddr
        &&& m.yiaddr == old_free.last()
        &&& m.options.messagetype == DHCPACK
        &&& m.options.serveridentifier == req.options.serveridentifier
        &&& m.options.leasetime == Some(lease_secs)
    }
}

fn copy_vec(v: &Vec<u8>) -> (r: Vec<u8>)
    ensures
        r@ == v@,
{
    let mut r: Vec<u8> = Vec::new();
    let mut i: usize = 0;
    while i < v.len()
        invariant
            i <= v.len(),
            r@ == v@.take(i as int),
        decreases v.len() - i,
    {
        r.push(v[i]);
        i = i + 1;
        assert(r@ =~= v@.take(i as int));
    }
    assert(r@ =~= v@);
    r
}

fn copy_opt(o: &Option<Vec<u8>>) -> (r: Option<Vec<u8>>)
    ensures
        opt_view(r) == opt_view(*o),
{
    match o {
        Some(v) => Some(copy_vec(v)),
        None => None,
    }
}

fn make_reply(
    req: &DhcpMessage,
    ciaddr: u32,
    yiaddr: u32,
    messagetype: u8,
    leasetime: Option<u32>,
    serveridentifier: Option<u32>,
) -> (r: DhcpMessage)
    ensures
        reply_common(r, *req),
        r.ciaddr == ciaddr,
        r.yiaddr == yiaddr,
        r.options.messagetype == messagetype,
        r.options.leasetime == leasetime,
        r.options.serveridentifier == serveridentifier,
        r.options.wf() <== req.options.wf(),
{
    let r = DhcpMessage {
        op: OP_BOOTREPLY,
        htype: HWTYPE_ETHERNET,
        hlen: 6,
        hops: 0,
        xid: req.xid,
        secs: 0,
        flags: req.flags,
        ciaddr,
        yiaddr,
        siaddr: 0,
        giaddr: req.giaddr,
        chaddr: copy_vec(&req.chaddr),
        sname: Vec::new(),
        file: Vec::new(),
        options: DhcpOptions {
            messagetype,
            hostname: copy_opt(&req.options.hostname),
            parameterlist: None,
            leasetime,
            serveridentifier,
            clientidentifier: copy_opt(&req.options.clientidentifier),
            other: Vec::new(),
        },
    };
    r
}

/// Answers a DISCOVER that arrived from `from` with an OFFER from the pool.
pub fn handle_discover(pools: &mut Pool, req: &DhcpMessage, from: SourceAddr) -> (r: Result<
    DhcpMessage,
    DhcpError,
>)
    requires
        old(pools).wf(),
    ensures
        final(pools).wf(),
        final(pools).lease_secs() == old(pools).lease_secs(),
        discover_outcome(
            *req,
            from,
            old(pools).free(),
            old(pools).lease_secs(),
            final(pools).free(),
            r,
        ),
        r matches Ok(m) ==> (req.options.wf() ==> m.options.wf()),
{
    match from {
        SourceAddr::V4 { ip, port } => match pools.allocate_address() {
            Some(lease) => Ok(make_reply(req, 0, lease.ip, DHCPOFFER, None, Some(ip))),
            None => Err(DhcpError::NoLeasesAvailable),
        },
        SourceAddr::V6 => Err(
            DhcpError::InternalError("Missing v4 addresses on received packet".to_owned()),
        ),
    }
}

/// Answers a REQUEST with an ACK from the pool, unless it names another server.
pub fn handle_request(
    pools: &mut Pool,
    req: &DhcpMessage,
    from: SourceAddr,
    serverids: &ServerIds,
) -> (r: Result<DhcpMessage, DhcpError>)
    requires
        old(pools).wf(),
    ensures
        final(pools).wf(),
        final(pools).lease_secs() == old(pools).lease_secs(),
        request_outcome(
            *req,
            from,
            serverids@,
            old(pools).free(),
            old(pools).lease_secs(),
            final(pools).free(),
            r,
        ),
        r matches Ok(m) ==> (req.options.wf() ==> m.options.wf()),
{
    if let Some(si) = req.options.serveridentifier {
        if !serverids.contains(si) {
            return Err(DhcpError::OtherServer);
        }
    }
    match from {
        SourceAddr::V4 { ip, port } => match pools.allocate_address() {
            Some(lease) => Ok(
                make_reply(
                    req,
                    req.ciaddr,
                    lease.ip,
                    DHCPACK,
                    Some(lease.lease),
                    req.options.serveridentifier,
                ),
            ),
            None => Err(DhcpError::NoLeasesAvailable),
        },
        SourceAddr::V6 => Err(DhcpError::OtherServer),
    }
}

/// What answering the packet `buf` does, given the message it parses to.
pub open spec fn packet_outcome(
    req: DhcpMessage,
    from: SourceAddr,
    serverids: Set<u32>,
    old_free: Seq<u32>,
    lease_secs: u32,
    new_free: Seq<u32>,
    r: Result<DhcpMessage, DhcpError>,
) -> bool {
    if req.options.messagetype == DHCPDISCOVER {
        discover_outcome(req, from, old_free, lease_secs, new_free, r)
    } else if req.options.messagetype == DHCPREQUEST {
        request_outcome(req, from, serverids, old_free, lease_secs, new_free, r)
    } else {
        new_free == old_free && r == Err::<DhcpMessage, DhcpError>(
            DhcpError::UnknownMessageType(req.options.messagetype),
        )
    }
}

/// Parses a packet that arrived from `from` and answers it: a DISCOVER with an OFFER,
/// a REQUEST with an ACK; any other message type is an error.
pub fn handle_pkt(pools: &mut Pool, buf: &[u8], from: SourceAddr, serverids: &ServerIds) -> (r:
    Result<DhcpMessage, DhcpError>)
    requires
        old(pools).wf(),
    ensures
        final(pools).wf(),
        final(pools).lease_secs() == old(pools).lease_secs(),
        parse_error_of(buf@) matches Some(e) ==> (r == Err::<DhcpMessage, DhcpError>(
            DhcpError::ParseError(e),
        ) && final(pools).free() == old(pools).free()),
        parse_error_of(buf@) is None ==> exists|req: DhcpMessage|
            parsed_from(buf@, req) && packet_outcome(
                req,
                from,
                serverids@,
                old(pools).free(),
                old(pools).lease_secs(),
                final(pools).free(),
                r,
            ),
        r matches Ok(m) ==> m.options.wf(),
{
    match parse(buf) {
        Ok(req) => {
            let r = if req.options.messagetype == DHCPDISCOVER {
                handle_discover(pools, &req, from)
            } else if req.options.messagetype == DHCPREQUEST {
                handle_request(pools, &req, from, serverids)
            } else {
                Err(DhcpError::UnknownMessageType(req.options.messagetype))
            };
            assert(parsed_from(buf@, req));
            r
        },
        Err(e) => Err(DhcpError::ParseError(e)),
    }
}

/// Records the server identity that a reply advertises, then gives the reply's bytes:
/// the identity is in the set before the reply can leave.
pub fn prepare_reply(serverids: &mut ServerIds, reply: &DhcpMessage) -> (r: Vec<u8>)
    requires
        reply.options.wf(),
    ensures
        r@ == crate::dhcppkt::serialised(*reply),
        final(serverids)@ == match reply.options.serveridentifier {
            Some(si) => old(serverids)@.insert(si),
            None => old(serverids)@,
        },
{
    if let Some(si) = reply.options.serveridentifier {
        serverids.insert(si);
    }
    reply.serialise()
}

/// Every reply echoes the request's transaction id, flags, relay and client hardware
/// address and is a BOOTREPLY; an ACK carries a positive lease time and an OFFER a
/// server identifier.
pub proof fn lemma_reply_fields(
    req: DhcpMessage,
    from: SourceAddr,
    serverids: Set<u32>,
    old_free: Seq<u32>,
    lease_secs: u32,
    new_free: Seq<u32>,
    r: Result<DhcpMessage, DhcpError>,
)
    requires
        lease_secs > 0,
        packet_outcome(req, from, serverids, old_free, lease_secs, new_free, r),
    ensures
        r matches Ok(m) ==> {
            &&& m.xid == req.xid
            &&& m.chaddr@ == req.chaddr@
            &&& m.giaddr == req.giaddr
            &&& m.flags == req.flags
            &&& m.op == OP_BOOTREPLY
            &&& m.options.messagetype == DHCPACK ==> (m.options.leasetime matches Some(t) && t > 0)
            &&& m.options.messagetype == DHCPOFFER ==> m.options.serveridentifier is Some
        },
{
}

/// A REQUEST that names a server identity outside the set is refused as meant for
/// another server, and no address is taken from the pool.
pub proof fn lemma_other_server_untouched(
    req: DhcpMessage,
    from: SourceAddr,
    serverids: Set<u32>,
    old_free: Seq<u32>,
    lease_secs: u32,
    new_free: Seq<u32>,
    r: Result<DhcpMessage, DhcpError>,
)
    requires
        req.options.messagetype == DHCPREQUEST,
        req.options.serveridentifier matches Some(si) && !serverids.contains(si),
        packet_outcome(req, from, serverids, old_free, lease_secs, new_free, r),
    ensures
        r == Err::<DhcpMessage, DhcpError>(DhcpError::OtherServer),
        new_free == old_free,
{
}

} // verus!
