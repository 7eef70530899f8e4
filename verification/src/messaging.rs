//! The agent message bus: topic sequence numbers, and which messages a poll,
//! a peek or a compaction keeps.

use vstd::prelude::*;
use std::collections::VecDeque;
use crate::ids::new_uuid;

verus! {

/// A message on the bus.
pub struct BusMessage {
    pub id: String,
    /// Increases by one with every message of the topic.
    pub seq: u64,
    pub topic: String,
    pub sender_tenant: String,
    pub sender_agent: String,
    pub payload: serde_json::Value,
    pub timestamp: u64,
    /// Seconds until the message expires; `None` for never.
    pub ttl_secs: Option<u64>,
}

/// The sequence counter and totals of a topic.
pub struct TopicMeta {
    pub last_seq: u64,
    pub total_messages: u64,
    pub created_at: u64,
    pub last_message_at: Option<u64>,
}

/// A topic as listed.
pub struct TopicStats {
    pub topic: String,
    pub last_seq: u64,
    pub total_messages: u64,
    pub created_at: u64,
    pub last_message_at: Option<u64>,
}

/// A message has expired at `now` once its time to live has run out.
pub open spec fn expired(m: BusMessage, now: u64) -> bool {
    match m.ttl_secs {
        Some(ttl) => now >= m.timestamp + ttl,
        None => false,
    }
}

/// The expiry time of a message can be computed.
pub open spec fn expiry_in_range(m: BusMessage) -> bool {
    m.ttl_secs matches Some(ttl) ==> m.timestamp + ttl <= u64::MAX
}

impl BusMessage {
    /// Whether the message has expired at `now`.
    pub fn is_expired(&self, now: u64) -> (b: bool)
        requires
            expiry_in_range(*self),
        ensures
            b == expired(*self, now),
    {
        match self.ttl_secs {
            Some(ttl) => now >= self.timestamp + ttl,
            None => false,
        }
    }
}

impl TopicMeta {
    /// The meta of a topic that has no message yet.
    pub fn new() -> (m: TopicMeta)
        ensures
            m.last_seq == 0 && m.total_messages == 0 && m.created_at == 0 && m.last_message_at is None,
    {
        TopicMeta { last_seq: 0, total_messages: 0, created_at: 0, last_message_at: None }
    }
}

/// Publishes a message on `topic` at `now`: the topic's counter advances
/// and the message takes the new sequence number and a fresh id.
pub fn publish(meta: &mut TopicMeta, topic: &str, sender_tenant: &str, sender_agent: &str,
    payload: serde_json::Value, ttl_secs: Option<u64>, now: u64) -> (m: BusMessage)
    requires
        old(meta).last_seq < u64::MAX,
        old(meta).total_messages < u64::MAX,
    ensures
        final(meta).last_seq == old(meta).last_seq + 1,
        final(meta).total_messages == old(meta).total_messages + 1,
        final(meta).created_at == if old(meta).created_at == 0 { now } else { old(meta).created_at },
        final(meta).last_message_at == Some(now),
        m.id@.len() == 36,
        m.seq == final(meta).last_seq,
        m.topic@ == topic@,
        m.sender_tenant@ == sender_tenant@,
        m.sender_agent@ == sender_agent@,
        m.payload == payload,
        m.timestamp == now,
        m.ttl_secs == ttl_secs,
{
    if meta.created_at == 0 {
        meta.created_at = now;
    }
    meta.last_seq = meta.last_seq + 1;
    meta.total_messages = meta.total_messages + 1;
    meta.last_message_at = Some(now);
    BusMessage {
        id: new_uuid(),
        seq: meta.last_seq,
        topic: topic.to_owned(),
        sender_tenant: sender_tenant.to_owned(),
        sender_agent: sender_agent.to_owned(),
        payload,
        timestamp: now,
        ttl_secs,
    }
}

/// The messages live at `now`, in order.
pub open spec fn live(ms: Seq<BusMessage>, now: u64) -> Seq<BusMessage> {
    ms.filter(|m: BusMessage| !expired(m, now))
}

/// Every message's expiry time can be computed.
pub open spec fn all_expiry_in_range(ms: Seq<BusMessage>) -> bool {
    forall|k: int| 0 <= k < ms.len() ==> expiry_in_range(#[trigger] ms[k])
}

/// The live messages after `since_seq`, in order.
pub open spec fn newer_live(ms: Seq<BusMessage>, since_seq: u64, now: u64) -> Seq<BusMessage> {
    ms.filter(|m: BusMessage| m.seq > since_seq && !expired(m, now))
}

/// The first `limit` (at most 1000) live messages after `since_seq`.
pub fn poll(messages: Vec<BusMessage>, since_seq: u64, limit: usize, now: u64) -> (r: Vec<BusMessage>)
    requires
        all_expiry_in_range(messages@),
    ensures
        ({
            let all = newer_live(messages@, since_seq, now);
            let cap = if limit < 1000 { limit as int } else { 1000int };
            r@ == all.take(if all.len() < cap { all.len() as int } else { cap })
        }),
{
    let cap: usize = if limit < 1000 { limit } else { 1000 };
    let ghost all = messages@;
    let ghost pred = |m: BusMessage| m.seq > since_seq && !expired(m, now);
    let mut out: Vec<BusMessage> = Vec::new();
    proof {
        reveal(Seq::filter);
        assert(all.take(0) =~= Seq::<BusMessage>::empty());
    }
    for m in it: messages.into_iter()
        invariant
            it.seq() == all,
            all_expiry_in_range(all),
            pred == (|m: BusMessage| m.seq > since_seq && !expired(m, now)),
            out@.len() <= cap,
            out@.len() <= all.take(it.index() as int).filter(pred).len(),
            out@ == all.take(it.index() as int).filter(pred).take(out@.len() as int),
            out@.len() < cap ==> out@ == all.take(it.index() as int).filter(pred),
    {
        let ghost k = it.index() as int;
        proof {
            assert(m == all[k]);
            assert(all.take(k + 1) =~= all.take(k).push(m));
            all.take(k).lemma_filter_push(m, pred);
            assert(expiry_in_range(all[k]));
        }
        let ghost f0 = all.take(k).filter(pred);
        if out.len() < cap && m.seq > since_seq && !m.is_expired(now) {
            out.push(m);
            proof {
                assert(out@ =~= f0.push(all[k]));
                assert(all.take(k + 1).filter(pred).take(out@.len() as int) =~= out@);
            }
        } else {
            proof {
                if out@.len() == cap {
                    let f1 = all.take(k + 1).filter(pred);
                    if pred(all[k]) {
                        assert(f1 == f0.push(all[k]));
                        assert(f1.take(out@.len() as int) =~= f0.take(out@.len() as int));
                    } else {
                        assert(f1 == f0);
                    }
                } else {
                    assert(!pred(all[k]));
                    assert(out@ =~= all.take(k + 1).filter(pred).take(out@.len() as int));
                }
            }
        }
    }
    proof {
        assert(all.take(all.len() as int) =~= all);
        let f = all.filter(pred);
        assert(f == newer_live(messages@, since_seq, now));
        if out@.len() < cap {
            assert(f.take(f.len() as int) =~= f);
        } else {
            assert(f.len() >= out@.len());
        }
    }
    out
}

/// What `peek_latest` keeps of the live messages: the last `limit` of them
/// (none when `limit` is 0).
pub open spec fn latest(ms: Seq<BusMessage>, limit: int) -> Seq<BusMessage> {
    if ms.len() <= limit { ms } else { ms.subrange(ms.len() - limit, ms.len() as int) }
}

/// The latest live messages, oldest first.
pub fn peek_latest(messages: Vec<BusMessage>, limit: usize, now: u64) -> (r: Vec<BusMessage>)
    requires
        all_expiry_in_range(messages@),
    ensures
        r@ == latest(live(messages@, now), limit as int),
{
    let ghost all = messages@;
    let ghost pred = |m: BusMessage| !expired(m, now);
    let mut kept: VecDeque<BusMessage> = VecDeque::new();
    proof {
        reveal(Seq::filter);
        assert(all.take(0) =~= Seq::<BusMessage>::empty());
    }
    for m in it: messages.into_iter()
        invariant
            it.seq() == all,
            all_expiry_in_range(all),
            pred == (|m: BusMessage| !expired(m, now)),
            kept@ == latest(all.take(it.index() as int).filter(pred), limit as int),
    {
        let ghost k = it.index() as int;
        let ghost f0 = all.take(k).filter(pred);
        proof {
            assert(m == all[k]);
            assert(all.take(k + 1) =~= all.take(k).push(m));
            all.take(k).lemma_filter_push(m, pred);
            assert(expiry_in_range(all[k]));
        }
        if !m.is_expired(now) && limit > 0 {
            if kept.len() >= limit {
                kept.pop_front();
            }
            kept.push_back(m);
            proof {
                let f1 = f0.push(all[k]);
                assert(kept@ =~= latest(f1, limit as int));
            }
        } else {
            proof {
                let f1 = f0.push(all[k]);
                if !expired(all[k], now) {
                    assert(latest(f1, 0) =~= Seq::<BusMessage>::empty());
                    assert(latest(f0, 0) =~= Seq::<BusMessage>::empty());
                }
            }
        }
    }
    proof {
        assert(all.take(all.len() as int) =~= all);
    }
    let ghost want = kept@;
    let mut r: Vec<BusMessage> = Vec::new();
    while kept.len() > 0
        invariant
            r@ + kept@ == want,
        decreases kept@.len(),
    {
        let ghost k0 = kept@;
        if let Some(m) = kept.pop_front() {
            r.push(m);
            proof {
                assert(r@ + kept@ =~= want) by {
                    assert(k0 =~= seq![m] + kept@);
                    assert(r@ + kept@ =~= r@.drop_last() + k0);
                }
            }
        }
    }
    proof {
        assert(r@ + kept@ =~= r@);
    }
    r
}

/// The live messages, and how many of the `line_count` stored lines a
/// compaction drops.
pub fn compact_topic(messages: Vec<BusMessage>, line_count: usize, now: u64) -> (r: (Vec<BusMessage>, usize))
    requires
        all_expiry_in_range(messages@),
    ensures
        r.0@ == live(messages@, now),
        r.1 == if line_count >= r.0@.len() { line_count - r.0@.len() } else { 0 },
{
    let ghost all = messages@;
    let ghost pred = |m: BusMessage| !expired(m, now);
    let mut kept: Vec<BusMessage> = Vec::new();
    proof {
        reveal(Seq::filter);
        assert(all.take(0) =~= Seq::<BusMessage>::empty());
    }
    for m in it: messages.into_iter()
        invariant
            it.seq() == all,
            all_expiry_in_range(all),
            pred == (|m: BusMessage| !expired(m, now)),
            kept@ == all.take(it.index() as int).filter(pred),
    {
        let ghost k = it.index() as int;
        proof {
            assert(m == all[k]);
            assert(all.take(k + 1) =~= all.take(k).push(m));
            all.take(k).lemma_filter_push(m, pred);
            assert(expiry_in_range(all[k]));
        }
        if !m.is_expired(now) {
            kept.push(m);
        }
    }
    proof {
        assert(all.take(all.len() as int) =~= all);
    }
    let removed = if line_count >= kept.len() { line_count - kept.len() } else { 0 };
    (kept, removed)
}

/// The listing of `topic` with its meta.
pub fn topic_stats(topic: String, meta: &TopicMeta) -> (s: TopicStats)
    ensures
        s.topic == topic,
        s.last_seq == meta.last_seq,
        s.total_messages == meta.total_messages,
        s.created_at == meta.created_at,
        s.last_message_at == meta.last_message_at,
{
    TopicStats {
        topic,
        last_seq: meta.last_seq,
        total_messages: meta.total_messages,
        created_at: meta.created_at,
        last_message_at: meta.last_message_at,
    }
}

/// Whether every expiry time of the messages can be computed.
pub fn expiries_ok(messages: &Vec<BusMessage>) -> (b: bool)
    ensures
        b == all_expiry_in_range(messages@),
{
    let mut k: usize = 0;
    while k < messages.len()
        invariant
            k <= messages.len(),
            forall|q: int| 0 <= q < k ==> expiry_in_range(#[trigger] messages@[q]),
        decreases messages.len() - k,
    {
        match messages[k].ttl_secs {
            Some(ttl) => {
                if messages[k].timestamp > u64::MAX - ttl {
                    return false;
                }
            },
            None => {},
        }
        k += 1;
    }
    true
}

} // verus!
