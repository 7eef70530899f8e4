//! Agent memory: a keyed store of entries with optional time to live, and
//! what reads, writes, deletes and listings do to it.

use vstd::prelude::*;
use crate::text::{str_eq, list_contains, lists, chars_of, is_alphanumeric, alphanumeric, string_of, texts};
use crate::fetch::{to_lowercase, lowercase};
use crate::display::blen;

verus! {

/// One remembered entry.
pub struct MemoryEntry {
    pub key: String,
    pub value: serde_json::Value,
    pub tags: Vec<String>,
    pub text: Option<String>,
    pub created_at: u64,
    pub updated_at: u64,
    pub ttl_secs: Option<u64>,
    /// A dense embedding, each component as the bits of an IEEE 754 single.
    pub embedding_bits: Option<Vec<u32>>,
}

/// The entries of one agent, at most one per key, in insertion order.
pub struct MemoryStore {
    pub entries: Vec<MemoryEntry>,
}

/// Counts over a store.
pub struct MemoryStats {
    pub tenant_id: String,
    pub agent_id: String,
    pub total_entries: usize,
    pub live_entries: usize,
    pub total_bytes: u64,
    pub with_embeddings: usize,
}

/// An entry has expired at `now` once its time to live has run out since
/// it was created.
pub open spec fn entry_expired(e: MemoryEntry, now: u64) -> bool {
    match e.ttl_secs {
        Some(ttl) => now >= e.created_at + ttl,
        None => false,
    }
}

pub open spec fn entry_in_range(e: MemoryEntry) -> bool {
    e.ttl_secs matches Some(ttl) ==> e.created_at + ttl <= u64::MAX
}

/// No two entries share a key, and every expiry time can be computed.
pub open spec fn store_wf(es: Seq<MemoryEntry>) -> bool {
    &&& forall|i: int, j: int| 0 <= i < j < es.len() ==> (#[trigger] es[i]).key@ != (#[trigger] es[j]).key@
    &&& forall|i: int| 0 <= i < es.len() ==> entry_in_range(#[trigger] es[i])
}

/// The entry stored under `key`, if any.
pub open spec fn entry_at(es: Seq<MemoryEntry>, key: Seq<char>) -> Option<MemoryEntry> {
    if exists|i: int| 0 <= i < es.len() && #[trigger] es[i].key@ == key {
        Some(es[choose|i: int| 0 <= i < es.len() && #[trigger] es[i].key@ == key])
    } else {
        None
    }
}

proof fn lemma_entry_at(es: Seq<MemoryEntry>, key: Seq<char>, i: int)
    requires
        store_wf(es),
        0 <= i < es.len(),
        es[i].key@ == key,
    ensures
        entry_at(es, key) == Some(es[i]),
{
    let j = choose|j: int| 0 <= j < es.len() && #[trigger] es[j].key@ == key;
    if j != i {
        if j < i {
            assert(es[j].key@ != es[i].key@);
        } else {
            assert(es[i].key@ != es[j].key@);
        }
    }
}

fn expired_at(e: &MemoryEntry, now: u64) -> (b: bool)
    requires
        entry_in_range(*e),
    ensures
        b == entry_expired(*e, now),
{
    match e.ttl_secs {
        Some(ttl) => now >= e.created_at + ttl,
        None => false,
    }
}

fn position_of(es: &Vec<MemoryEntry>, key: &str) -> (r: Option<usize>)
    ensures
        match r {
            Some(i) => i < es@.len() && es@[i as int].key@ == key@,
            None => forall|i: int| 0 <= i < es@.len() ==> #[trigger] es@[i].key@ != key@,
        },
{
    let mut i: usize = 0;
    while i < es.len()
        invariant
            i <= es.len(),
            forall|q: int| 0 <= q < i ==> #[trigger] es@[q].key@ != key@,
        decreases es.len() - i,
    {
        if str_eq(es[i].key.as_str(), key) {
            return Some(i);
        }
        i += 1;
    }
    None
}

impl MemoryStore {
    pub fn new() -> (s: MemoryStore)
        ensures
            s.entries@.len() == 0,
    {
        MemoryStore { entries: Vec::new() }
    }

    /// Drops the entries that have expired at `now`.
    pub fn prune_expired(&mut self, now: u64)
        requires
            store_wf(old(self).entries@),
        ensures
            final(self).entries@ == old(self).entries@.filter(|e: MemoryEntry| !entry_expired(e, now)),
            store_wf(final(self).entries@),
    {
        let ghost all = old(self).entries@;
        let ghost pred = |e: MemoryEntry| !entry_expired(e, now);
        let mut taken: Vec<MemoryEntry> = Vec::new();
        std::mem::swap(&mut taken, &mut self.entries);
        let mut kept: Vec<MemoryEntry> = Vec::new();
        proof {
            reveal(Seq::filter);
            assert(all.take(0) =~= Seq::<MemoryEntry>::empty());
        }
        for e in it: taken.into_iter()
            invariant
                it.seq() == all,
                store_wf(all),
                pred == (|e: MemoryEntry| !entry_expired(e, now)),
                kept@ == all.take(it.index() as int).filter(pred),
        {
            let ghost k = it.index() as int;
            proof {
                assert(e == all[k]);
                assert(all.take(k + 1) =~= all.take(k).push(e));
                all.take(k).lemma_filter_push(e, pred);
                assert(entry_in_range(all[k]));
            }
            if !expired_at(&e, now) {
                kept.push(e);
            }
        }
        proof {
            assert(all.take(all.len() as int) =~= all);
            lemma_filter_wf(all, pred);
        }
        self.entries = kept;
    }

    /// The number of entries live at `now`.
    pub fn live_count(&self, now: u64) -> (n: usize)
        requires
            store_wf(self.entries@),
        ensures
            n == self.entries@.filter(|e: MemoryEntry| !entry_expired(e, now)).len(),
    {
        let es = &self.entries;
        let ghost pred = |e: MemoryEntry| !entry_expired(e, now);
        let mut n: usize = 0;
        let mut i: usize = 0;
        proof {
            reveal(Seq::filter);
            assert(es@.take(0) =~= Seq::<MemoryEntry>::empty());
        }
        while i < es.len()
            invariant
                store_wf(es@),
                pred == (|e: MemoryEntry| !entry_expired(e, now)),
                i <= es.len(),
                n <= i,
                n == es@.take(i as int).filter(pred).len(),
            decreases es.len() - i,
        {
            proof {
                assert(es@.take(i + 1) =~= es@.take(i as int).push(es@[i as int]));
                es@.take(i as int).lemma_filter_push(es@[i as int], pred);
                assert(entry_in_range(es@[i as int]));
            }
            if !expired_at(&es[i], now) {
                n += 1;
            }
            i += 1;
        }
        proof {
            assert(es@.take(es.len() as int) =~= es@);
        }
        n
    }
}

/// Filtering keeps the store well formed.
proof fn lemma_filter_wf(es: Seq<MemoryEntry>, pred: spec_fn(MemoryEntry) -> bool)
    requires
        store_wf(es),
    ensures
        store_wf(es.filter(pred)),
{
    let f = es.filter(pred);
    broadcast use vstd::seq_lib::group_filter_ensures;
    assert forall|i: int, j: int| 0 <= i < j < f.len() implies (#[trigger] f[i]).key@ != (#[trigger] f[j]).key@ by {
        lemma_filter_order(es, pred, i, j);
    }
    assert forall|i: int| 0 <= i < f.len() implies entry_in_range(#[trigger] f[i]) by {
        assert(f.contains(f[i]));
        es.lemma_filter_contains_rev(pred, f[i]);
        let a = choose|a: int| 0 <= a < es.len() && es[a] == f[i];
        assert(entry_in_range(es[a]));
    }
}

/// Entries of a filtered sequence come from distinct positions, in order.
proof fn lemma_filter_order(es: Seq<MemoryEntry>, pred: spec_fn(MemoryEntry) -> bool, i: int, j: int)
    requires
        store_wf(es),
        0 <= i < j < es.filter(pred).len(),
    ensures
        es.filter(pred)[i].key@ != es.filter(pred)[j].key@,
    decreases es.len(),
{
    reveal(Seq::filter);
    let d = es.drop_last();
    assert(store_wf(d)) by {
        assert forall|a: int, b: int| 0 <= a < b < d.len() implies (#[trigger] d[a]).key@ != (#[trigger] d[b]).key@ by {
            assert(d[a] == es[a] && d[b] == es[b]);
        }
        assert forall|a: int| 0 <= a < d.len() implies entry_in_range(#[trigger] d[a]) by {
            assert(d[a] == es[a]);
        }
    }
    let fd = d.filter(pred);
    if pred(es.last()) && j == fd.len() {
        // The last kept entry is the last of `es`, whose key no earlier entry has.
        assert(fd.contains(fd[i]));
        d.lemma_filter_contains_rev(pred, fd[i]);
        let a = choose|a: int| 0 <= a < d.len() && d[a] == fd[i];
        assert(es[a] == d[a]);
        assert(es[a].key@ != es[es.len() - 1].key@);
    } else {
        lemma_filter_order(d, pred, i, j);
    }
}

/// The entry live under `key` at `now`.
pub fn get_memory<'a>(store: &'a MemoryStore, key: &str, now: u64) -> (r: Option<&'a MemoryEntry>)
    requires
        store_wf(store.entries@),
    ensures
        match entry_at(store.entries@, key@) {
            Some(e) => if entry_expired(e, now) { r is None } else { r == Some(&e) },
            None => r is None,
        },
{
    match position_of(&store.entries, key) {
        Some(i) => {
            proof {
                lemma_entry_at(store.entries@, key@, i as int);
                assert(entry_in_range(store.entries@[i as int]));
            }
            if expired_at(&store.entries[i], now) {
                None
            } else {
                Some(&store.entries[i])
            }
        },
        None => None,
    }
}

/// Removes the entry under `key`; true when there was one.
pub fn delete_memory(store: &mut MemoryStore, key: &str) -> (removed: bool)
    requires
        store_wf(old(store).entries@),
    ensures
        removed == (entry_at(old(store).entries@, key@) is Some),
        store_wf(final(store).entries@),
        entry_at(final(store).entries@, key@) is None,
        forall|k: Seq<char>| k != key@ ==> #[trigger] entry_at(final(store).entries@, k) == entry_at(old(store).entries@, k),
{
    let ghost es = old(store).entries@;
    match position_of(&store.entries, key) {
        Some(i) => {
            proof {
                lemma_entry_at(es, key@, i as int);
            }
            store.entries.remove(i);
            proof {
                lemma_remove_wf(es, i as int);
            }
            true
        },
        None => false,
    }
}

proof fn lemma_remove_wf(es: Seq<MemoryEntry>, i: int)
    requires
        store_wf(es),
        0 <= i < es.len(),
    ensures
        store_wf(es.remove(i)),
        entry_at(es.remove(i), es[i].key@) is None,
        forall|k: Seq<char>| k != es[i].key@ ==> #[trigger] entry_at(es.remove(i), k) == entry_at(es, k),
{
    let r = es.remove(i);
    assert forall|a: int, b: int| 0 <= a < b < r.len() implies (#[trigger] r[a]).key@ != (#[trigger] r[b]).key@ by {
        let a0 = if a < i { a } else { a + 1 };
        let b0 = if b < i { b } else { b + 1 };
        assert(r[a] == es[a0] && r[b] == es[b0]);
    }
    assert forall|a: int| 0 <= a < r.len() implies entry_in_range(#[trigger] r[a]) by {
        let a0 = if a < i { a } else { a + 1 };
        assert(r[a] == es[a0]);
    }
    if exists|a: int| 0 <= a < r.len() && #[trigger] r[a].key@ == es[i].key@ {
        let a = choose|a: int| 0 <= a < r.len() && #[trigger] r[a].key@ == es[i].key@;
        let a0 = if a < i { a } else { a + 1 };
        assert(r[a] == es[a0]);
        if a0 < i {
            assert(es[a0].key@ != es[i].key@);
        } else {
            assert(es[i].key@ != es[a0].key@);
        }
    }
    assert forall|k: Seq<char>| k != es[i].key@ implies #[trigger] entry_at(r, k) == entry_at(es, k) by {
        if exists|a: int| 0 <= a < es.len() && #[trigger] es[a].key@ == k {
            let a = choose|a: int| 0 <= a < es.len() && #[trigger] es[a].key@ == k;
            lemma_entry_at(es, k, a);
            let a1 = if a < i { a } else { a - 1 };
            assert(a != i);
            assert(r[a1] == es[a]);
            lemma_entry_at(r, k, a1);
        } else {
            if exists|a: int| 0 <= a < r.len() && #[trigger] r[a].key@ == k {
                let a = choose|a: int| 0 <= a < r.len() && #[trigger] r[a].key@ == k;
                let a0 = if a < i { a } else { a + 1 };
                assert(r[a] == es[a0]);
            }
        }
    }
}


/// `a` and `b` hold the same entry.
pub open spec fn same_entry(a: MemoryEntry, b: MemoryEntry) -> bool {
    &&& a.key@ == b.key@
    &&& a.value == b.value
    &&& a.tags@ == b.tags@
    &&& a.text == b.text
    &&& a.created_at == b.created_at
    &&& a.updated_at == b.updated_at
    &&& a.ttl_secs == b.ttl_secs
    &&& match (a.embedding_bits, b.embedding_bits) {
        (Some(x), Some(y)) => x@ == y@,
        (None, None) => true,
        _ => false,
    }
}

/// A copy of a JSON value, by its derived `Clone`: equal to the value copied.
#[verifier::external_body]
fn copy_json(v: &serde_json::Value) -> (r: serde_json::Value)
    ensures
        r == *v,
{
    v.clone()
}

fn copy_entry(e: &MemoryEntry) -> (r: MemoryEntry)
    ensures
        same_entry(r, *e),
{
    MemoryEntry {
        key: e.key.clone(),
        value: copy_json(&e.value),
        tags: crate::text::copy_strings(&e.tags),
        text: match &e.text {
            Some(t) => Some(t.clone()),
            None => None,
        },
        created_at: e.created_at,
        updated_at: e.updated_at,
        ttl_secs: e.ttl_secs,
        embedding_bits: match &e.embedding_bits {
            Some(v) => {
                let mut c: Vec<u32> = Vec::new();
                let mut i: usize = 0;
                while i < v.len()
                    invariant
                        i <= v.len(),
                        c@ == v@.take(i as int),
                    decreases v.len() - i,
                {
                    c.push(v[i]);
                    proof {
                        assert(v@.take(i + 1) =~= v@.take(i as int).push(v@[i as int]));
                    }
                    i += 1;
                }
                proof {
                    assert(v@.take(v.len() as int) =~= v@);
                }
                Some(c)
            },
            None => None,
        },
    }
}

/// The live entries at `now`.
pub open spec fn live_entries(es: Seq<MemoryEntry>, now: u64) -> Seq<MemoryEntry> {
    es.filter(|e: MemoryEntry| !entry_expired(e, now))
}

/// Stores `value` under `key` at `now`, after dropping the expired entries.
/// An entry that replaces a live one keeps its creation time. Returns a copy
/// of what was stored.
pub fn put_memory(store: &mut MemoryStore, key: &str, value: serde_json::Value, tags: Vec<String>,
    text: Option<String>, ttl_secs: Option<u64>, embedding_bits: Option<Vec<u32>>, now: u64) -> (r: MemoryEntry)
    requires
        store_wf(old(store).entries@),
        ttl_secs matches Some(ttl) ==> ({
            let created = match entry_at(live_entries(old(store).entries@, now), key@) {
                Some(e) => e.created_at,
                None => now,
            };
            created + ttl <= u64::MAX
        }),
    ensures
        store_wf(final(store).entries@),
        r.key@ == key@,
        r.value == value,
        r.tags@ == tags@,
        r.text == text,
        r.created_at == match entry_at(live_entries(old(store).entries@, now), key@) {
            Some(e) => e.created_at,
            None => now,
        },
        r.updated_at == now,
        r.ttl_secs == ttl_secs,
        entry_at(final(store).entries@, key@) matches Some(e) && same_entry(e, r),
        forall|k: Seq<char>| k != key@ ==> #[trigger] entry_at(final(store).entries@, k)
            == entry_at(live_entries(old(store).entries@, now), k),
{
    store.prune_expired(now);
    let ghost pruned = store.entries@;
    let created_at = match position_of(&store.entries, key) {
        Some(i) => {
            proof {
                lemma_entry_at(pruned, key@, i as int);
            }
            store.entries[i].created_at
        },
        None => now,
    };
    let entry = MemoryEntry {
        key: key.to_owned(),
        value,
        tags,
        text,
        created_at,
        updated_at: now,
        ttl_secs,
        embedding_bits,
    };
    let out = copy_entry(&entry);
    match position_of(&store.entries, key) {
        Some(i) => {
            store.entries.set(i, entry);
            proof {
                lemma_set_wf(pruned, i as int, out);
            }
        },
        None => {
            store.entries.push(entry);
            proof {
                lemma_push_wf(pruned, out);
            }
        },
    }
    out
}

/// Replacing the entry at `i` by one of the same key keeps the store well
/// formed and changes only that key.
proof fn lemma_set_wf(es: Seq<MemoryEntry>, i: int, e: MemoryEntry)
    requires
        store_wf(es),
        0 <= i < es.len(),
        entry_in_range(e),
    ensures
        forall|x: MemoryEntry| x.key@ == es[i].key@ && entry_in_range(x) ==> {
            let u = #[trigger] es.update(i, x);
            &&& store_wf(u)
            &&& entry_at(u, x.key@) == Some(x)
            &&& forall|k: Seq<char>| k != x.key@ ==> #[trigger] entry_at(u, k) == entry_at(es, k)
        },
{
    assert forall|x: MemoryEntry| x.key@ == es[i].key@ && entry_in_range(x) implies {
        let u = #[trigger] es.update(i, x);
        &&& store_wf(u)
        &&& entry_at(u, x.key@) == Some(x)
        &&& forall|k: Seq<char>| k != x.key@ ==> #[trigger] entry_at(u, k) == entry_at(es, k)
    } by {
        let u = es.update(i, x);
        assert forall|a: int, b: int| 0 <= a < b < u.len() implies (#[trigger] u[a]).key@ != (#[trigger] u[b]).key@ by {
            assert(es[a].key@ != es[b].key@);
        }
        assert forall|a: int| 0 <= a < u.len() implies entry_in_range(#[trigger] u[a]) by {}
        lemma_entry_at(u, x.key@, i);
        assert forall|k: Seq<char>| k != x.key@ implies #[trigger] entry_at(u, k) == entry_at(es, k) by {
            if exists|a: int| 0 <= a < es.len() && #[trigger] es[a].key@ == k {
                let a = choose|a: int| 0 <= a < es.len() && #[trigger] es[a].key@ == k;
                lemma_entry_at(es, k, a);
                assert(a != i);
                lemma_entry_at(u, k, a);
            } else {
                if exists|a: int| 0 <= a < u.len() && #[trigger] u[a].key@ == k {
                    let a = choose|a: int| 0 <= a < u.len() && #[trigger] u[a].key@ == k;
                    assert(a != i);
                    assert(u[a] == es[a]);
                }
            }
        }
    }
}

/// Appending an entry of a new key keeps the store well formed and changes
/// only that key.
proof fn lemma_push_wf(es: Seq<MemoryEntry>, e: MemoryEntry)
    requires
        store_wf(es),
        forall|a: int| 0 <= a < es.len() ==> #[trigger] es[a].key@ != e.key@,
    ensures
        forall|x: MemoryEntry| x.key@ == e.key@ && entry_in_range(x) ==> {
            let u = #[trigger] es.push(x);
            &&& store_wf(u)
            &&& entry_at(u, x.key@) == Some(x)
            &&& forall|k: Seq<char>| k != x.key@ ==> #[trigger] entry_at(u, k) == entry_at(es, k)
        },
{
    assert forall|x: MemoryEntry| x.key@ == e.key@ && entry_in_range(x) implies {
        let u = #[trigger] es.push(x);
        &&& store_wf(u)
        &&& entry_at(u, x.key@) == Some(x)
        &&& forall|k: Seq<char>| k != x.key@ ==> #[trigger] entry_at(u, k) == entry_at(es, k)
    } by {
        let u = es.push(x);
        assert forall|a: int, b: int| 0 <= a < b < u.len() implies (#[trigger] u[a]).key@ != (#[trigger] u[b]).key@ by {
            if b == es.len() {
                assert(es[a].key@ != e.key@);
            } else {
                assert(es[a].key@ != es[b].key@);
            }
        }
        assert forall|a: int| 0 <= a < u.len() implies entry_in_range(#[trigger] u[a]) by {}
        lemma_entry_at(u, x.key@, es.len() as int);
        assert forall|k: Seq<char>| k != x.key@ implies #[trigger] entry_at(u, k) == entry_at(es, k) by {
            if exists|a: int| 0 <= a < es.len() && #[trigger] es[a].key@ == k {
                let a = choose|a: int| 0 <= a < es.len() && #[trigger] es[a].key@ == k;
                lemma_entry_at(es, k, a);
                assert(u[a] == es[a]);
                lemma_entry_at(u, k, a);
            } else {
                if exists|a: int| 0 <= a < u.len() && #[trigger] u[a].key@ == k {
                    let a = choose|a: int| 0 <= a < u.len() && #[trigger] u[a].key@ == k;
                    assert(a != es.len());
                    assert(u[a] == es[a]);
                }
            }
        }
    }
}

/// What is read back after a write is what was written, while it lives:
/// once `put_memory` stored an entry under a key, `get_memory` on that key
/// at any time before the entry expires answers that entry.
pub proof fn lemma_read_after_write(after: Seq<MemoryEntry>, key: Seq<char>, written: MemoryEntry, later: u64)
    requires
        entry_at(after, key) matches Some(e) && same_entry(e, written),
        !entry_expired(written, later),
    ensures
        entry_at(after, key) matches Some(e) && !entry_expired(e, later) && same_entry(e, written),
{
}

/// The keys of the entries live at `now`, after dropping the expired ones.
pub fn list_memory_keys(store: &mut MemoryStore, now: u64) -> (r: Vec<String>)
    requires
        store_wf(old(store).entries@),
    ensures
        final(store).entries@ == live_entries(old(store).entries@, now),
        store_wf(final(store).entries@),
        r@ == final(store).entries@.map_values(|e: MemoryEntry| e.key),
{
    store.prune_expired(now);
    let es = &store.entries;
    let mut r: Vec<String> = Vec::new();
    let mut i: usize = 0;
    while i < es.len()
        invariant
            i <= es.len(),
            r@ == es@.take(i as int).map_values(|e: MemoryEntry| e.key),
        decreases es.len() - i,
    {
        r.push(es[i].key.clone());
        proof {
            assert(es@.take(i + 1).map_values(|e: MemoryEntry| e.key)
                =~= es@.take(i as int).map_values(|e: MemoryEntry| e.key).push(es@[i as int].key));
        }
        i += 1;
    }
    proof {
        assert(es@.take(es.len() as int) =~= es@);
    }
    r
}

/// Whether the entry carries every tag of `required`.
pub fn tag_matches(entry: &MemoryEntry, required: &Vec<String>) -> (b: bool)
    ensures
        b == forall|k: int| 0 <= k < required@.len() ==> lists(entry.tags@, #[trigger] required@[k]@),
{
    let mut k: usize = 0;
    while k < required.len()
        invariant
            k <= required.len(),
            forall|q: int| 0 <= q < k ==> lists(entry.tags@, #[trigger] required@[q]@),
        decreases required.len() - k,
    {
        if !list_contains(&entry.tags, required[k].as_str()) {
            return false;
        }
        k += 1;
    }
    true
}

/// The counts of a store at `now`; `total_bytes` is the size of its
/// serialized form.
pub fn memory_stats(store: &MemoryStore, tenant_id: &str, agent_id: &str, total_bytes: u64, now: u64) -> (s: MemoryStats)
    requires
        store_wf(store.entries@),
    ensures
        s.tenant_id@ == tenant_id@,
        s.agent_id@ == agent_id@,
        s.total_entries == store.entries@.len(),
        s.live_entries == live_entries(store.entries@, now).len(),
        s.total_bytes == total_bytes,
        s.with_embeddings == store.entries@.filter(|e: MemoryEntry| e.embedding_bits is Some).len(),
{
    let es = &store.entries;
    let ghost pred = |e: MemoryEntry| e.embedding_bits is Some;
    let mut n: usize = 0;
    let mut i: usize = 0;
    proof {
        reveal(Seq::filter);
        assert(es@.take(0) =~= Seq::<MemoryEntry>::empty());
    }
    while i < es.len()
        invariant
            pred == (|e: MemoryEntry| e.embedding_bits is Some),
            i <= es.len(),
            n <= i,
            n == es@.take(i as int).filter(pred).len(),
        decreases es.len() - i,
    {
        proof {
            assert(es@.take(i + 1) =~= es@.take(i as int).push(es@[i as int]));
            es@.take(i as int).lemma_filter_push(es@[i as int], pred);
        }
        if es[i].embedding_bits.is_some() {
            n += 1;
        }
        i += 1;
    }
    proof {
        assert(es@.take(es.len() as int) =~= es@);
    }
    MemoryStats {
        tenant_id: tenant_id.to_owned(),
        agent_id: agent_id.to_owned(),
        total_entries: es.len(),
        live_entries: store.live_count(now),
        total_bytes,
        with_embeddings: n,
    }
}

impl MemoryStore {
    /// Whether the store is well formed: no key twice, and every expiry
    /// time computable.
    pub fn well_formed(&self) -> (b: bool)
        ensures
            b == store_wf(self.entries@),
    {
        let es = &self.entries;
        let mut i: usize = 0;
        while i < es.len()
            invariant
                es@ == self.entries@,
                i <= es.len(),
                forall|a: int, c: int| 0 <= a < c < i ==> (#[trigger] es@[a]).key@ != (#[trigger] es@[c]).key@,
                forall|a: int| 0 <= a < i ==> entry_in_range(#[trigger] es@[a]),
            decreases es.len() - i,
        {
            match es[i].ttl_secs {
                Some(ttl) => {
                    if es[i].created_at > u64::MAX - ttl {
                        proof {
                            assert(!entry_in_range(es@[i as int]));
                            assert(!store_wf(self.entries@));
                        }
                        return false;
                    }
                },
                None => {},
            }
            let mut j: usize = 0;
            while j < i
                invariant
                    es@ == self.entries@,
                    j <= i < es.len(),
                    forall|a: int| 0 <= a < j ==> (#[trigger] es@[a]).key@ != es@[i as int].key@,
                decreases i - j,
            {
                if str_eq(es[j].key.as_str(), es[i].key.as_str()) {
                    proof {
                        assert(es@[j as int].key@ == es@[i as int].key@);
                        assert(!store_wf(self.entries@));
                    }
                    return false;
                }
                j += 1;
            }
            i += 1;
        }
        true
    }
}

// ── Search tokens ────────────────────────────────────────────────────────────

/// A finished piece is kept as a token when it is at least two bytes long.
pub open spec fn keep_token(ts: Seq<Seq<char>>, t: Seq<char>) -> Seq<Seq<char>> {
    if blen(t) >= 2 { ts.push(t) } else { ts }
}

/// Splitting `s` at its non-alphanumeric characters: the tokens kept so far,
/// and the run of alphanumeric characters at the end.
pub open spec fn token_state(s: Seq<char>) -> (Seq<Seq<char>>, Seq<char>)
    decreases s.len(),
{
    if s.len() == 0 {
        (Seq::empty(), Seq::empty())
    } else {
        let st = token_state(s.drop_last());
        let c = s.last();
        if alphanumeric(c) {
            (st.0, st.1.push(c))
        } else {
            (keep_token(st.0, st.1), Seq::empty())
        }
    }
}

/// The search tokens of a text: its lowercase form cut at every character
/// that is not alphanumeric, keeping the pieces of two bytes or more.
pub open spec fn tokens(text: Seq<char>) -> Seq<Seq<char>> {
    let st = token_state(lowercase(text));
    keep_token(st.0, st.1)
}

fn push_token(out: &mut Vec<String>, cur: &Vec<char>)
    ensures
        texts(final(out)@) == keep_token(texts(old(out)@), cur@),
{
    let t = string_of(cur);
    let n = t.as_str().as_bytes().len();
    proof {
        assert(n == blen(cur@));
    }
    if n >= 2 {
        let ghost o = out@;
        out.push(t);
        proof {
            assert(texts(out@) =~= texts(o).push(cur@));
        }
    }
}

/// The search tokens of `text`, in order.
pub fn tokenize(text: &str) -> (r: Vec<String>)
    ensures
        texts(r@) == tokens(text@),
{
    let lower = to_lowercase(text);
    let cs = chars_of(lower.as_str());
    let mut out: Vec<String> = Vec::new();
    let mut cur: Vec<char> = Vec::new();
    let mut i: usize = 0;
    proof {
        assert(cs@.take(0) =~= Seq::<char>::empty());
        assert(texts(out@) =~= Seq::<Seq<char>>::empty());
    }
    while i < cs.len()
        invariant
            cs@ == lowercase(text@),
            i <= cs.len(),
            texts(out@) == token_state(cs@.take(i as int)).0,
            cur@ == token_state(cs@.take(i as int)).1,
        decreases cs.len() - i,
    {
        proof {
            assert(cs@.take(i + 1).drop_last() =~= cs@.take(i as int));
            assert(cs@.take(i + 1).last() == cs@[i as int]);
        }
        let c = cs[i];
        if is_alphanumeric(c) {
            cur.push(c);
        } else {
            push_token(&mut out, &cur);
            cur = Vec::new();
            proof {
                assert(cur@ =~= Seq::<char>::empty());
            }
        }
        i += 1;
    }
    proof {
        assert(cs@.take(cs.len() as int) =~= cs@);
    }
    push_token(&mut out, &cur);
    out
}

} // verus!
