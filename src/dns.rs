use vstd::prelude::*;

verus! {

/// DNS class IN, the only class that the cache handles.
pub const CLASS_IN: u16 = 1;

/// One resource record of a reply, as the cache sees it.
pub struct ResourceRecord {
    pub name: Vec<u8>,
    pub rtype: u16,
    pub ttl: u32,
    pub rdata: Vec<u8>,
}

pub struct RrView {
    pub name: Seq<u8>,
    pub rtype: u16,
    pub ttl: u32,
    pub rdata: Seq<u8>,
}

impl View for ResourceRecord {
    type V = RrView;

    open spec fn view(&self) -> RrView {
        RrView { name: self.name@, rtype: self.rtype, ttl: self.ttl, rdata: self.rdata@ }
    }
}

/// A decoded upstream reply: the records of its answer and authority sections, and
/// the MINIMUM field of an SOA record in the authority section, if there is one.
pub struct DnsReply {
    pub answers: Vec<ResourceRecord>,
    pub authority: Vec<ResourceRecord>,
    pub soa_minimum: Option<u32>,
}

pub struct DnsReplyView {
    pub answers: Seq<RrView>,
    pub authority: Seq<RrView>,
    pub soa_minimum: Option<u32>,
}

pub open spec fn rrs_view(s: Seq<ResourceRecord>) -> Seq<RrView> {
    s.map_values(|r: ResourceRecord| r@)
}

impl View for DnsReply {
    type V = DnsReplyView;

    open spec fn view(&self) -> DnsReplyView {
        DnsReplyView {
            answers: rrs_view(self.answers@),
            authority: rrs_view(self.authority@),
            soa_minimum: self.soa_minimum,
        }
    }
}

/// A TTL after `secs` seconds have passed, saturating at zero.
pub open spec fn decremented_ttl(ttl: u32, secs: nat) -> u32 {
    if secs >= ttl { 0 } else { (ttl - secs) as u32 }
}

pub open spec fn rr_decremented(r: RrView, secs: nat) -> RrView {
    RrView { ttl: decremented_ttl(r.ttl, secs), ..r }
}

pub open spec fn rrs_decremented(s: Seq<RrView>, secs: nat) -> Seq<RrView> {
    s.map_values(|r: RrView| rr_decremented(r, secs))
}

/// The reply with every record's TTL lowered by `secs` seconds, saturating at zero.
pub open spec fn reply_decremented(p: DnsReplyView, secs: nat) -> DnsReplyView {
    DnsReplyView {
        answers: rrs_decremented(p.answers, secs),
        authority: rrs_decremented(p.authority, secs),
        soa_minimum: p.soa_minimum,
    }
}

/// The smallest TTL in `s`, or `bound` if that is smaller.
pub open spec fn min_ttl(s: Seq<RrView>, bound: u32) -> u32
    decreases s.len(),
{
    if s.len() == 0 {
        bound
    } else {
        let rest = min_ttl(s.drop_last(), bound);
        if s.last().ttl < rest { s.last().ttl } else { rest }
    }
}

/// How many seconds a reply may be cached: the smallest TTL over the answer and
/// authority sections; where the answer is empty and an SOA is present, its MINIMUM
/// caps that too. A reply without records gets zero.
pub open spec fn reply_expiry(p: DnsReplyView) -> u32 {
    if p.answers.len() == 0 && p.soa_minimum is Some {
        min_ttl(p.authority, p.soa_minimum->Some_0)
    } else if p.answers.len() + p.authority.len() == 0 {
        0
    } else {
        min_ttl(p.answers + p.authority, u32::MAX)
    }
}

fn copy_bytes(v: &Vec<u8>) -> (r: Vec<u8>)
    ensures
        r@ == v@,
{
    let mut r: Vec<u8> = Vec::new();
    let mut i: usize = 0;
    while i < v.len()
        invariant
            i <= v.len(),
            r@ == v@.take(i as int),
        decreases v.len() - i,
    {
        r.push(v[i]);
        i = i + 1;
        assert(r@ =~= v@.take(i as int));
    }
    assert(r@ =~= v@);
    r
}

fn min_ttl_of(s: &Vec<ResourceRecord>, bound: u32) -> (r: u32)
    ensures
        r == min_ttl(rrs_view(s@), bound),
{
    let mut r: u32 = bound;
    let mut i: usize = 0;
    while i < s.len()
        invariant
            i <= s.len(),
            r == min_ttl(rrs_view(s@).take(i as int), bound),
        decreases s.len() - i,
    {
        assert(rrs_view(s@).take(i + 1).drop_last() =~= rrs_view(s@).take(i as int));
        if s[i].ttl < r {
            r = s[i].ttl;
        }
        i = i + 1;
    }
    assert(rrs_view(s@).take(i as int) =~= rrs_view(s@));
    r
}

proof fn lemma_min_ttl_append(a: Seq<RrView>, b: Seq<RrView>, bound: u32)
    ensures
        min_ttl(a + b, bound) == min_ttl(b, min_ttl(a, bound)),
    decreases b.len(),
{
    if b.len() == 0 {
        assert(a + b =~= a);
    } else {
        assert((a + b).drop_last() =~= a + b.drop_last());
        lemma_min_ttl_append(a, b.drop_last(), bound);
    }
}

impl ResourceRecord {
    /// A copy of the record whose TTL is lowered by `secs`, saturating at zero.
    pub fn clone_with_ttl_decrement(&self, secs: u64) -> (r: ResourceRecord)
        ensures
            r@ == rr_decremented(self@, secs as nat),
    {
        let ttl: u32 = if secs >= self.ttl as u64 { 0 } else { self.ttl - secs as u32 };
        ResourceRecord {
            name: copy_bytes(&self.name),
            rtype: self.rtype,
            ttl,
            rdata: copy_bytes(&self.rdata),
        }
    }
}

fn rrs_with_ttl_decrement(s: &Vec<ResourceRecord>, secs: u64) -> (r: Vec<ResourceRecord>)
    ensures
        rrs_view(r@) == rrs_decremented(rrs_view(s@), secs as nat),
{
    let mut r: Vec<ResourceRecord> = Vec::new();
    let mut i: usize = 0;
    while i < s.len()
        invariant
            i <= s.len(),
            rrs_view(r@) == rrs_decremented(rrs_view(s@), secs as nat).take(i as int),
        decreases s.len() - i,
    {
        let rr = s[i].clone_with_ttl_decrement(secs);
        let ghost prev = r@;
        r.push(rr);
        proof {
            assert(r@ == prev.push(rr));
            assert(rrs_view(r@) =~= rrs_view(prev).push(rr@));
            assert(rrs_view(s@)[i as int] == s@[i as int]@);
        }
        i = i + 1;
        assert(rrs_view(r@) =~= rrs_decremented(rrs_view(s@), secs as nat).take(i as int));
    }
    assert(rrs_view(r@) =~= rrs_decremented(rrs_view(s@), secs as nat));
    r
}

impl DnsReply {
    /// A copy of the reply whose every TTL is lowered by `secs`, saturating at zero.
    pub fn clone_with_ttl_decrement(&self, secs: u64) -> (r: DnsReply)
        ensures
            r@ == reply_decremented(self@, secs as nat),
    {
        DnsReply {
            answers: rrs_with_ttl_decrement(&self.answers, secs),
            authority: rrs_with_ttl_decrement(&self.authority, secs),
            soa_minimum: self.soa_minimum,
        }
    }

    /// How many seconds this reply may be cached.
    pub fn get_expiry(&self) -> (r: u32)
        ensures
            r == reply_expiry(self@),
    {
        if self.answers.len() == 0 && self.soa_minimum.is_some() {
            min_ttl_of(&self.authority, self.soa_minimum.unwrap())
        } else if self.answers.len() == 0 && self.authority.len() == 0 {
            0
        } else {
            let a = min_ttl_of(&self.answers, u32::MAX);
            let r = min_ttl_of(&self.authority, a);
            proof {
                lemma_min_ttl_append(rrs_view(self.answers@), rrs_view(self.authority@), u32::MAX);
                assert(rrs_view(self.answers@ + self.authority@) =~= rrs_view(self.answers@)
                    + rrs_view(self.authority@));
            }
            r
        }
    }
}

} // verus!
