use vstd::prelude::*;

use crate::dns::{reply_decremented, reply_expiry, DnsReply, DnsReplyView, CLASS_IN};

verus! {

/// Lifetime of a negative entry, in milliseconds: the cool-down after a transport failure.
pub const NEGATIVE_LIFETIME_MS: u64 = 8000;

/// Longest pause between two expiry sweeps, in milliseconds.
pub const MAX_SWEEP_DELAY_MS: u64 = 1800000;

/// Shortest pause between two expiry sweeps, in milliseconds.
pub const MIN_SWEEP_DELAY_MS: u64 = 30000;

/// What the upstream transport reports when a query fails. Errors that carry an
/// operating-system handle arrive here already flattened to their message.
#[derive(Debug)]
pub enum OutQueryError {
    Timeout,
    FailedToSend(String),
    FailedToSendMsg(String),
    FailedToRecv(String),
    FailedToRecvMsg(String),
    TcpConnectionError(String),
    ParseError(String),
    InternalError(String),
}

/// The errors a query through the cache can end in.
#[derive(Debug)]
pub enum Error {
    NotAuthoritative,
    OutReply(OutQueryError),
}

/// The question of a query: the part of it that the cache is keyed on.
pub struct Question {
    pub qdomain: Vec<u8>,
    pub qtype: u16,
    pub qclass: u16,
}

/// The clonable projection of an error, as it is stored in the cache: transport
/// failures keep only their message.
pub open spec fn projected_error(e: Error) -> Error {
    match e {
        Error::OutReply(OutQueryError::FailedToSend(m)) => Error::OutReply(
            OutQueryError::FailedToSendMsg(m),
        ),
        Error::OutReply(OutQueryError::FailedToRecv(m)) => Error::OutReply(
            OutQueryError::FailedToRecvMsg(m),
        ),
        _ => e,
    }
}

/// Transport failures that are cached for a short cool-down.
pub open spec fn is_transient(e: Error) -> bool {
    match e {
        Error::OutReply(OutQueryError::Timeout) => true,
        Error::OutReply(OutQueryError::FailedToSend(_)) => true,
        Error::OutReply(OutQueryError::FailedToRecv(_)) => true,
        Error::OutReply(OutQueryError::TcpConnectionError(_)) => true,
        Error::OutReply(OutQueryError::ParseError(_)) => true,
        _ => false,
    }
}

pub open spec fn result_view(r: Result<DnsReply, Error>) -> Result<DnsReplyView, Error> {
    match r {
        Ok(p) => Ok(p@),
        Err(e) => Err(e),
    }
}

/// What a cached result looks like when it is handed out `secs` seconds after it
/// was stored.
pub open spec fn decremented_result(r: Result<DnsReplyView, Error>, secs: nat) -> Result<
    DnsReplyView,
    Error,
> {
    match r {
        Ok(p) => Ok(reply_decremented(p, secs)),
        Err(e) => Err(projected_error(e)),
    }
}

/// Whole seconds from `birth` to `now` (milliseconds), zero if `now` comes first.
pub open spec fn elapsed_secs(birth: u64, now: u64) -> nat {
    if now >= birth { ((now - birth) / 1000) as nat } else { 0 }
}

pub fn clone_error(e: &Error) -> (r: Error)
    ensures
        r == projected_error(*e),
{
    match e {
        Error::NotAuthoritative => Error::NotAuthoritative,
        Error::OutReply(o) => Error::OutReply(
            match o {
                OutQueryError::Timeout => OutQueryError::Timeout,
                OutQueryError::FailedToSend(m) => OutQueryError::FailedToSendMsg(m.clone()),
                OutQueryError::FailedToSendMsg(m) => OutQueryError::FailedToSendMsg(m.clone()),
                OutQueryError::FailedToRecv(m) => OutQueryError::FailedToRecvMsg(m.clone()),
                OutQueryError::FailedToRecvMsg(m) => OutQueryError::FailedToRecvMsg(m.clone()),
                OutQueryError::TcpConnectionError(m) => OutQueryError::TcpConnectionError(
                    m.clone(),
                ),
                OutQueryError::ParseError(m) => OutQueryError::ParseError(m.clone()),
                OutQueryError::InternalError(m) => OutQueryError::InternalError(m.clone()),
            },
        ),
    }
}

fn copy_error(e: &Error) -> (r: Error)
    ensures
        r == *e,
{
    match e {
        Error::NotAuthoritative => Error::NotAuthoritative,
        Error::OutReply(o) => Error::OutReply(
            match o {
                OutQueryError::Timeout => OutQueryError::Timeout,
                OutQueryError::FailedToSend(m) => OutQueryError::FailedToSend(m.clone()),
                OutQueryError::FailedToSendMsg(m) => OutQueryError::FailedToSendMsg(m.clone()),
                OutQueryError::FailedToRecv(m) => OutQueryError::FailedToRecv(m.clone()),
                OutQueryError::FailedToRecvMsg(m) => OutQueryError::FailedToRecvMsg(m.clone()),
                OutQueryError::TcpConnectionError(m) => OutQueryError::TcpConnectionError(
                    m.clone(),
                ),
                OutQueryError::ParseError(m) => OutQueryError::ParseError(m.clone()),
                OutQueryError::InternalError(m) => OutQueryError::InternalError(m.clone()),
            },
        ),
    }
}

proof fn lemma_decrement_zero(p: DnsReplyView)
    ensures
        reply_decremented(p, 0) == p,
{
    assert(reply_decremented(p, 0).answers =~= p.answers);
    assert(reply_decremented(p, 0).authority =~= p.authority);
}

/// A copy of a result in which no error holds an operating-system handle.
pub fn clone_out_reply(reply: &Result<DnsReply, Error>) -> (r: Result<DnsReply, Error>)
    ensures
        result_view(r) == decremented_result(result_view(*reply), 0),
{
    match reply {
        Ok(p) => {
            let c = p.clone_with_ttl_decrement(0);
            Ok(c)
        },
        Err(e) => Err(clone_error(e)),
    }
}

/// A copy of a result as it is handed out `secs` seconds after it was stored.
pub fn clone_with_ttl_decrement_out_reply(reply: &Result<DnsReply, Error>, secs: u64) -> (r:
    Result<DnsReply, Error>)
    ensures
        result_view(r) == decremented_result(result_view(*reply), secs as nat),
{
    match reply {
        Ok(p) => Ok(p.clone_with_ttl_decrement(secs)),
        Err(e) => Err(clone_error(e)),
    }
}

/// One cached result. Times are monotonic milliseconds.
pub struct CacheEntry {
    pub qname: Vec<u8>,
    pub qtype: u16,
    pub reply: Result<DnsReply, Error>,
    pub birth: u64,
    pub lifetime: u64,
}

pub struct EntryView {
    pub qname: Seq<u8>,
    pub qtype: u16,
    pub reply: Result<DnsReplyView, Error>,
    pub birth: u64,
    pub lifetime: u64,
}

impl View for CacheEntry {
    type V = EntryView;

    open spec fn view(&self) -> EntryView {
        EntryView {
            qname: self.qname@,
            qtype: self.qtype,
            reply: result_view(self.reply),
            birth: self.birth,
            lifetime: self.lifetime,
        }
    }
}

pub open spec fn same_key(e: EntryView, qname: Seq<u8>, qtype: u16) -> bool {
    e.qname == qname && e.qtype == qtype
}

/// An entry may be handed out while its deadline lies after `now`.
pub open spec fn is_live(e: EntryView, now: u64) -> bool {
    e.birth + e.lifetime > now
}

pub open spec fn live_at(now: u64) -> spec_fn(EntryView) -> bool {
    |e: EntryView| is_live(e, now)
}

/// No two entries share a key.
pub open spec fn keys_unique(s: Seq<EntryView>) -> bool {
    forall|i: int, j: int|
        #![trigger s[i], s[j]]
        0 <= i < s.len() && 0 <= j < s.len() && i != j ==> !same_key(
            s[i],
            s[j].qname,
            s[j].qtype,
        )
}

pub open spec fn has_key(s: Seq<EntryView>, qname: Seq<u8>, qtype: u16) -> bool {
    exists|i: int| 0 <= i < s.len() && same_key(#[trigger] s[i], qname, qtype)
}

pub open spec fn key_index(s: Seq<EntryView>, qname: Seq<u8>, qtype: u16) -> int {
    choose|i: int| 0 <= i < s.len() && same_key(#[trigger] s[i], qname, qtype)
}

/// What a lookup finds.
pub enum LookupView {
    Hit(Result<DnsReplyView, Error>),
    Expired,
    Miss,
    UncachableClass,
}

/// The cache's answer to a question of class IN at time `now`.
pub open spec fn lookup_spec(s: Seq<EntryView>, qname: Seq<u8>, qtype: u16, now: u64) -> LookupView {
    if has_key(s, qname, qtype) {
        let e = s[key_index(s, qname, qtype)];
        if is_live(e, now) {
            LookupView::Hit(decremented_result(e.reply, elapsed_secs(e.birth, now)))
        } else {
            LookupView::Expired
        }
    } else {
        LookupView::Miss
    }
}

/// The cache after `e` is stored: it replaces the entry with the same key, if any.
pub open spec fn cache_insert(s: Seq<EntryView>, e: EntryView) -> Seq<EntryView> {
    if has_key(s, e.qname, e.qtype) {
        s.update(key_index(s, e.qname, e.qtype), e)
    } else {
        s.push(e)
    }
}

/// The cache after the upstream answered `outcome` to a question of class IN at time `now`.
pub open spec fn cache_after(
    s: Seq<EntryView>,
    qname: Seq<u8>,
    qtype: u16,
    outcome: Result<DnsReplyView, Error>,
    now: u64,
) -> Seq<EntryView> {
    match outcome {
        Ok(p) => cache_insert(
            s,
            EntryView {
                qname,
                qtype,
                reply: Ok(p),
                birth: now,
                lifetime: (reply_expiry(p) * 1000) as u64,
            },
        ),
        Err(e) => if is_transient(e) {
            cache_insert(
                s,
                EntryView {
                    qname,
                    qtype,
                    reply: Err(projected_error(e)),
                    birth: now,
                    lifetime: NEGATIVE_LIFETIME_MS,
                },
            )
        } else {
            s
        },
    }
}

/// The smallest time in milliseconds from `now` to an entry's deadline, or `bound`.
pub open spec fn min_remaining(s: Seq<EntryView>, now: u64, bound: int) -> int
    decreases s.len(),
{
    if s.len() == 0 {
        bound
    } else {
        let rest = min_remaining(s.drop_last(), now, bound);
        let d = s.last().birth + s.last().lifetime - now;
        if d < rest { d } else { rest }
    }
}

/// The pause before the next sweep over the entries `s` that a sweep at `now` kept.
pub open spec fn sweep_delay(s: Seq<EntryView>, now: u64) -> int {
    let m = min_remaining(s, now, MAX_SWEEP_DELAY_MS as int);
    if m < MIN_SWEEP_DELAY_MS { MIN_SWEEP_DELAY_MS as int } else { m }
}

proof fn lemma_insert_then_find(s: Seq<EntryView>, e: EntryView)
    requires
        keys_unique(s),
    ensures
        keys_unique(cache_insert(s, e)),
        has_key(cache_insert(s, e), e.qname, e.qtype),
        cache_insert(s, e)[key_index(cache_insert(s, e), e.qname, e.qtype)] == e,
{
    let s2 = cache_insert(s, e);
    let k: int = if has_key(s, e.qname, e.qtype) {
        key_index(s, e.qname, e.qtype)
    } else {
        s.len() as int
    };
    assert(s2[k] == e);
    assert forall|i: int, j: int|
        #![trigger s2[i], s2[j]]
        0 <= i < s2.len() && 0 <= j < s2.len() && i != j implies !same_key(
        s2[i],
        s2[j].qname,
        s2[j].qtype,
    ) by {
        if i != k && j != k {
            assert(s2[i] == s[i] && s2[j] == s[j]);
        } else if i == k {
            assert(s2[j] == s[j]);
            if has_key(s, e.qname, e.qtype) {
                assert(!same_key(s[j], s[k].qname, s[k].qtype));
            }
        } else {
            assert(s2[i] == s[i]);
            if has_key(s, e.qname, e.qtype) {
                assert(!same_key(s[i], s[k].qname, s[k].qtype));
            }
        }
    }
    assert(same_key(s2[k], e.qname, e.qtype));
    let c = key_index(s2, e.qname, e.qtype);
    assert(c == k);
}

/// Two identical queries of class IN, the second made before the reply to the first
/// expires, get the same reply: the second one from the cache, with every TTL lowered
/// by the whole seconds between them.
pub proof fn lemma_repeat_query_hits(
    s: Seq<EntryView>,
    qname: Seq<u8>,
    qtype: u16,
    p: DnsReplyView,
    t: u64,
    now: u64,
)
    requires
        keys_unique(s),
        t <= now,
        now < t + reply_expiry(p) * 1000,
    ensures
        lookup_spec(cache_after(s, qname, qtype, Ok(p), t), qname, qtype, now) == LookupView::Hit(
            Ok(reply_decremented(p, elapsed_secs(t, now))),
        ),
{
    let e = EntryView {
        qname,
        qtype,
        reply: Ok(p),
        birth: t,
        lifetime: (reply_expiry(p) * 1000) as u64,
    };
    lemma_insert_then_find(s, e);
}

/// After the upstream fails with a transport error, every identical query of class IN
/// made within the cool-down is answered from the cache, so the upstream is asked once.
pub proof fn lemma_transient_failure_debounced(
    s: Seq<EntryView>,
    qname: Seq<u8>,
    qtype: u16,
    e: Error,
    t: u64,
    now: u64,
)
    requires
        keys_unique(s),
        is_transient(e),
        t <= now,
        now < t + NEGATIVE_LIFETIME_MS,
    ensures
        lookup_spec(cache_after(s, qname, qtype, Err(e), t), qname, qtype, now) == LookupView::Hit(
            Err(projected_error(e)),
        ),
{
    let v = EntryView {
        qname,
        qtype,
        reply: Err(projected_error(e)),
        birth: t,
        lifetime: NEGATIVE_LIFETIME_MS,
    };
    lemma_insert_then_find(s, v);
}

/// The result of a lookup: a cached answer, or the reason the query must go upstream.
pub enum Lookup {
    Hit(Result<DnsReply, Error>),
    Expired,
    Miss,
    UncachableClass,
}

impl View for Lookup {
    type V = LookupView;

    open spec fn view(&self) -> LookupView {
        match self {
            Lookup::Hit(r) => LookupView::Hit(result_view(*r)),
            Lookup::Expired => LookupView::Expired,
            Lookup::Miss => LookupView::Miss,
            Lookup::UncachableClass => LookupView::UncachableClass,
        }
    }
}

fn bytes_equal(a: &Vec<u8>, b: &Vec<u8>) -> (r: bool)
    ensures
        r == (a@ == b@),
{
    if a.len() != b.len() {
        return false;
    }
    let mut i: usize = 0;
    while i < a.len()
        invariant
            i <= a.len(),
            a.len() == b.len(),
            a@.take(i as int) == b@.take(i as int),
        decreases a.len() - i,
    {
        if a[i] != b[i] {
            assert(a@[i as int] != b@[i as int]);
            return false;
        }
        i = i + 1;
        assert(a@.take(i as int) =~= b@.take(i as int));
    }
    assert(a@ =~= a@.take(i as int));
    assert(b@ =~= b@.take(i as int));
    true
}

impl CacheEntry {
    fn copy(&self) -> (r: CacheEntry)
        ensures
            r@ == self@,
    {
        let reply = match &self.reply {
            Ok(p) => {
                let c = p.clone_with_ttl_decrement(0);
                proof {
                    lemma_decrement_zero(p@);
                }
                Ok(c)
            },
            Err(e) => Err(copy_error(e)),
        };
        let mut qname: Vec<u8> = Vec::new();
        let mut i: usize = 0;
        while i < self.qname.len()
            invariant
                i <= self.qname.len(),
                qname@ == self.qname@.take(i as int),
            decreases self.qname.len() - i,
        {
            qname.push(self.qname[i]);
            i = i + 1;
            assert(qname@ =~= self.qname@.take(i as int));
        }
        assert(qname@ =~= self.qname@);
        CacheEntry {
            qname,
            qtype: self.qtype,
            reply,
            birth: self.birth,
            lifetime: self.lifetime,
        }
    }
}

/// A TTL-aware cache of upstream results, keyed by query name and type.
pub struct CacheHandler {
    entries: Vec<CacheEntry>,
}

impl View for CacheHandler {
    type V = Seq<EntryView>;

    closed spec fn view(&self) -> Seq<EntryView> {
        self.entries@.map_values(|e: CacheEntry| e@)
    }
}

impl CacheHandler {
    pub open spec fn wf(&self) -> bool {
        keys_unique(self@)
    }

    /// An empty cache.
    pub fn new() -> (r: CacheHandler)
        ensures
            r.wf(),
            r@ == Seq::<EntryView>::empty(),
    {
        let r = CacheHandler { entries: Vec::new() };
        assert(r@ =~= Seq::<EntryView>::empty());
        r
    }

    /// The number of entries.
    pub fn len(&self) -> (r: usize)
        ensures
            r == self@.len(),
    {
        self.entries.len()
    }

    fn find(&self, qname: &Vec<u8>, qtype: u16) -> (r: Option<usize>)
        ensures
            match r {
                Some(i) => i < self@.len() && same_key(self@[i as int], qname@, qtype),
                None => !has_key(self@, qname@, qtype),
            },
    {
        let mut i: usize = 0;
        while i < self.entries.len()
            invariant
                i <= self.entries.len(),
                forall|j: int| 0 <= j < i ==> !same_key(#[trigger] self@[j], qname@, qtype),
            decreases self.entries.len() - i,
        {
            let e = &self.entries[i];
            if e.qtype == qtype && bytes_equal(&e.qname, qname) {
                return Some(i);
            }
            i = i + 1;
        }
        None
    }

    /// Looks the question up at time `now` (milliseconds). A question of another class
    /// than IN bypasses the cache. A live entry is handed out with its TTLs lowered by
    /// the whole seconds it has spent in the cache.
    pub fn handle_query(&self, q: &Question, now: u64) -> (r: Lookup)
        requires
            self.wf(),
        ensures
            q.qclass != CLASS_IN ==> r is UncachableClass,
            q.qclass == CLASS_IN ==> r@ == lookup_spec(self@, q.qdomain@, q.qtype, now),
    {
        if q.qclass != CLASS_IN {
            return Lookup::UncachableClass;
        }
        match self.find(&q.qdomain, q.qtype) {
            Some(i) => {
                proof {
                    let k = key_index(self@, q.qdomain@, q.qtype);
                    assert(same_key(self@[i as int], q.qdomain@, q.qtype));
                    assert(k == i);
                }
                let e = &self.entries[i];
                if (e.birth as u128) + (e.lifetime as u128) > now as u128 {
                    let secs: u64 = if now >= e.birth { (now - e.birth) / 1000 } else { 0 };
                    Lookup::Hit(clone_with_ttl_decrement_out_reply(&e.reply, secs))
                } else {
                    Lookup::Expired
                }
            },
            None => Lookup::Miss,
        }
    }

    fn insert(&mut self, e: CacheEntry)
        requires
            old(self).wf(),
        ensures
            final(self).wf(),
            final(self)@ == cache_insert(old(self)@, e@),
    {
        let ghost s = self@;
        match self.find(&e.qname, e.qtype) {
            Some(i) => {
                proof {
                    assert(same_key(s[i as int], e.qname@, e.qtype));
                    assert(key_index(s, e.qname@, e.qtype) == i);
                }
                self.entries.set(i, e);
                assert(self@ =~= s.update(i as int, e@));
            },
            None => {
                self.entries.push(e);
                assert(self@ =~= s.push(e@));
            },
        }
    }

    /// Records what the upstream answered to `q` at time `now` (milliseconds) and
    /// returns the result for the caller, with the cache's new size. A reply is cached
    /// for its expiry, a transport failure for a short cool-down; other errors are
    /// handed back in their clonable form and not cached.
    pub fn complete_query(&mut self, q: &Question, outcome: Result<DnsReply, Error>, now: u64) -> (r:
        (Result<DnsReply, Error>, usize))
        requires
            old(self).wf(),
        ensures
            final(self).wf(),
            r.1 == final(self)@.len(),
            q.qclass != CLASS_IN ==> final(self)@ == old(self)@ && result_view(r.0)
                == result_view(outcome),
            q.qclass == CLASS_IN ==> final(self)@ == cache_after(
                old(self)@,
                q.qdomain@,
                q.qtype,
                result_view(outcome),
                now,
            ),
            q.qclass == CLASS_IN ==> result_view(r.0) == match outcome {
                Ok(p) => Ok(p@),
                Err(e) => if is_transient(e) {
                    Err(e)
                } else {
                    Err(projected_error(e))
                },
            },
    {
        if q.qclass != CLASS_IN {
            let n = self.entries.len();
            return (outcome, n);
        }
        let lifetime: u64 = match &outcome {
            Ok(p) => p.get_expiry() as u64 * 1000,
            Err(Error::OutReply(OutQueryError::Timeout))
            | Err(Error::OutReply(OutQueryError::FailedToSend(_)))
            | Err(Error::OutReply(OutQueryError::FailedToRecv(_)))
            | Err(Error::OutReply(OutQueryError::TcpConnectionError(_)))
            | Err(Error::OutReply(OutQueryError::ParseError(_))) => NEGATIVE_LIFETIME_MS,
            Err(e) => {
                let n = self.entries.len();
                return (Err(clone_error(e)), n);
            },
        };
        let reply = clone_out_reply(&outcome);
        proof {
            if outcome is Ok {
                lemma_decrement_zero(outcome->Ok_0@);
            }
        }
        let mut qname: Vec<u8> = Vec::new();
        let mut i: usize = 0;
        while i < q.qdomain.len()
            invariant
                i <= q.qdomain.len(),
                qname@ == q.qdomain@.take(i as int),
            decreases q.qdomain.len() - i,
        {
            qname.push(q.qdomain[i]);
            i = i + 1;
            assert(qname@ =~= q.qdomain@.take(i as int));
        }
        assert(qname@ =~= q.qdomain@);
        self.insert(CacheEntry { qname, qtype: q.qtype, reply, birth: now, lifetime });
        let n = self.entries.len();
        (outcome, n)
    }

    /// Drops every entry whose deadline is not after `now` (milliseconds). Returns the
    /// pause before the next sweep, which is the time to the earliest remaining deadline
    /// kept within the sweep bounds, and the cache's new size.
    pub fn expire(&mut self, now: u64) -> (r: (u64, usize))
        requires
            old(self).wf(),
        ensures
            final(self).wf(),
            final(self)@ == old(self)@.filter(live_at(now)),
            forall|i: int| 0 <= i < final(self)@.len() ==> is_live(#[trigger] final(self)@[i], now),
            r.0 == sweep_delay(final(self)@, now),
            r.1 == final(self)@.len(),
    {
        let ghost s = self@;
        let ghost pred = live_at(now);
        let mut kept: Vec<CacheEntry> = Vec::new();
        let mut delay: u64 = MAX_SWEEP_DELAY_MS;
        let mut i: usize = 0;
        while i < self.entries.len()
            invariant
                i <= self.entries.len(),
                s == self@,
                pred == live_at(now),
                kept@.map_values(|e: CacheEntry| e@) == s.take(i as int).filter(pred),
                delay == min_remaining(kept@.map_values(|e: CacheEntry| e@), now, MAX_SWEEP_DELAY_MS as int),
                delay <= MAX_SWEEP_DELAY_MS,
                keys_unique(s),
                keys_unique(kept@.map_values(|e: CacheEntry| e@)),
                forall|k: int|
                    0 <= k < kept@.len() ==> exists|j: int|
                        0 <= j < i && #[trigger] kept@[k]@ == s[j],
            decreases self.entries.len() - i,
        {
            let e = &self.entries[i];
            proof {
                assert(s[i as int] == e@);
                assert(s.take(i + 1) =~= s.take(i as int).push(s[i as int]));
                s.take(i as int).lemma_filter_push(s[i as int], pred);
                assert(pred(s[i as int]) == is_live(s[i as int], now));
            }
            if (e.birth as u128) + (e.lifetime as u128) > now as u128 {
                let c = e.copy();
                let ghost prev = kept@.map_values(|e: CacheEntry| e@);
                let d: u128 = (e.birth as u128) + (e.lifetime as u128) - (now as u128);
                kept.push(c);
                let ghost cur = kept@.map_values(|e: CacheEntry| e@);
                assert(cur =~= prev.push(c@));
                assert(cur.drop_last() =~= prev);
                assert(c@ == s[i as int]);
                assert(cur == s.take(i + 1).filter(pred));
                proof {
                    assert forall|k: int| 0 <= k < prev.len() implies !same_key(
                        #[trigger] prev[k],
                        c@.qname,
                        c@.qtype,
                    ) by {
                        assert(kept@[k]@ == prev[k]);
                        let j = choose|j: int| 0 <= j < i && #[trigger] kept@[k]@ == s[j];
                        assert(s[j] == prev[k]);
                        assert(!same_key(s[j], s[i as int].qname, s[i as int].qtype));
                    }
                    assert forall|a: int, b: int|
                        #![trigger cur[a], cur[b]]
                        0 <= a < cur.len() && 0 <= b < cur.len() && a != b implies !same_key(
                        cur[a],
                        cur[b].qname,
                        cur[b].qtype,
                    ) by {
                        if a < prev.len() && b < prev.len() {
                            assert(cur[a] == prev[a] && cur[b] == prev[b]);
                        } else if b < prev.len() {
                            assert(!same_key(prev[b], c@.qname, c@.qtype));
                        }
                    }
                    assert forall|k: int| 0 <= k < kept@.len() implies exists|j: int|
                        0 <= j < i + 1 && #[trigger] kept@[k]@ == s[j] by {
                        if k < prev.len() {
                            assert(kept@[k]@ == prev[k]);
                            assert(exists|j: int| 0 <= j < i && #[trigger] kept@[k]@ == s[j]);
                        } else {
                            assert(kept@[k]@ == s[i as int]);
                        }
                    }
                }
                if d < delay as u128 {
                    delay = d as u64;
                }
            }
            i = i + 1;
        }
        assert(s.take(i as int) =~= s);
        self.entries = kept;
        proof {
            assert forall|k: int| 0 <= k < self@.len() implies is_live(#[trigger] self@[k], now) by {
                broadcast use vstd::seq_lib::group_filter_ensures;
            }
        }
        if delay < MIN_SWEEP_DELAY_MS {
            delay = MIN_SWEEP_DELAY_MS;
        }
        let n = self.entries.len();
        (delay, n)
    }
}

} // verus!
