//! The key-value store: a shared mapping from key to value with an optional
//! absolute expiry, read under lazy, read-time expiration.

use vstd::prelude::*;

use crate::command::clone_bytes;
use crate::value::{model, SpecVal, Value};

verus! {

/// The model of a store entry: the stored bytes and the absolute expiry
/// time in milliseconds, if any.
pub struct SpecEntry {
    pub value: Seq<u8>,
    pub expires_at: Option<u64>,
}

/// A stored value with an optional absolute expiry time in milliseconds.
pub struct ExpiringValue {
    pub value: Vec<u8>,
    pub expires_at: Option<u64>,
}

/// The model of a run-time store entry.
pub open spec fn entry_model(e: ExpiringValue) -> SpecEntry {
    SpecEntry { value: e.value@, expires_at: e.expires_at }
}

/// The mapping an association list denotes; later entries would win, though
/// the store keeps at most one entry per key.
pub open spec fn entries_map(s: Seq<(Vec<u8>, ExpiringValue)>) -> Map<Seq<u8>, SpecEntry>
    decreases s.len(),
{
    if s.len() == 0 {
        Map::empty()
    } else {
        entries_map(s.drop_last()).insert(s.last().0@, entry_model(s.last().1))
    }
}

/// `now + ttl`, saturating at the largest representable time.
pub open spec fn sat_add(now: u64, ttl: u64) -> u64 {
    if now + ttl <= u64::MAX {
        (now + ttl) as u64
    } else {
        u64::MAX
    }
}

/// The absolute expiry a `set` computes from an optional TTL.
pub open spec fn spec_expiry(ttl: Option<u64>, now: u64) -> Option<u64> {
    match ttl {
        Some(t) => Some(sat_add(now, t)),
        None => None,
    }
}

/// What `get` returns: absent keys are `Null`; an entry whose
/// expiry has passed (`now >= expiry`) is masked as `Null` but not removed;
/// anything else is the stored bytes.
pub open spec fn spec_get(m: Map<Seq<u8>, SpecEntry>, k: Seq<u8>, now: u64) -> SpecVal {
    if m.contains_key(k) {
        match m[k].expires_at {
            Some(exp) => if now >= exp {
                SpecVal::Null
            } else {
                SpecVal::BulkString(m[k].value)
            },
            None => SpecVal::BulkString(m[k].value),
        }
    } else {
        SpecVal::Null
    }
}

/// The store: a mapping from key to entry, keys unique, shared by every
/// session. Entries are only ever overwritten by `set` and masked by `get`;
/// nothing removes them.
pub struct Store {
    entries: Vec<(Vec<u8>, ExpiringValue)>,
}

/// A key that occurs nowhere in `s` is absent from its map.
proof fn lemma_entries_map_absent(s: Seq<(Vec<u8>, ExpiringValue)>, k: Seq<u8>)
    requires
        forall|i: int| 0 <= i < s.len() ==> (#[trigger] s[i].0@) != k,
    ensures
        !entries_map(s).contains_key(k),
    decreases s.len(),
{
    if s.len() > 0 {
        lemma_entries_map_absent(s.drop_last(), k);
    }
}

/// The entry at the last occurrence of a key is the one its map holds.
proof fn lemma_entries_map_found(s: Seq<(Vec<u8>, ExpiringValue)>, k: Seq<u8>, i: int)
    requires
        0 <= i < s.len(),
        s[i].0@ == k,
        forall|j: int| i < j < s.len() ==> (#[trigger] s[j].0@) != k,
    ensures
        entries_map(s).contains_key(k),
        entries_map(s)[k] == entry_model(s[i].1),
    decreases s.len(),
{
    if i == s.len() - 1 {
    } else {
        lemma_entries_map_found(s.drop_last(), k, i);
    }
}

/// Replacing the entry at a key's index updates that key alone.
proof fn lemma_entries_map_update(
    s: Seq<(Vec<u8>, ExpiringValue)>,
    i: int,
    p: (Vec<u8>, ExpiringValue),
)
    requires
        0 <= i < s.len(),
        p.0@ == s[i].0@,
        forall|j: int| i < j < s.len() ==> (#[trigger] s[j].0@) != p.0@,
    ensures
        entries_map(s.update(i, p)) =~= entries_map(s).insert(p.0@, entry_model(p.1)),
    decreases s.len(),
{
    if i == s.len() - 1 {
        assert(s.update(i, p).drop_last() =~= s.drop_last());
        assert(s.update(i, p).last() == p);
    } else {
        assert(s.update(i, p).drop_last() =~= s.drop_last().update(i, p));
        assert(s.update(i, p).last() == s.last());
        lemma_entries_map_update(s.drop_last(), i, p);
        assert(s.last().0@ != p.0@);
    }
}

impl View for Store {
    type V = Map<Seq<u8>, SpecEntry>;

    closed spec fn view(&self) -> Map<Seq<u8>, SpecEntry> {
        entries_map(self.entries@)
    }
}

impl Store {
    /// An empty store.
    pub fn new() -> (s: Store)
        ensures
            s@ == Map::<Seq<u8>, SpecEntry>::empty(),
    {
        let s = Store { entries: Vec::new() };
        assert(s@ =~= Map::<Seq<u8>, SpecEntry>::empty());
        s
    }

    /// Looks `key` up at time `now`: `Null` when absent or expired (the
    /// entry is left in place), otherwise the stored bytes. The store is
    /// not changed.
    pub fn get(&self, key: &Vec<u8>, now: u64) -> (r: Value)
        ensures
            model(r) == spec_get(self@, key@, now),
    {
        let ghost s = self.entries@;
        let mut i: usize = self.entries.len();
        while i > 0
            invariant
                i <= s.len(),
                s == self.entries@,
                forall|j: int| i <= j < s.len() ==> (#[trigger] s[j].0@) != key@,
            decreases i,
        {
            i -= 1;
            if crate::command::bytes_eq(&self.entries[i].0, key) {
                proof {
                    lemma_entries_map_found(s, key@, i as int);
                }
                let e = &self.entries[i].1;
                match e.expires_at {
                    Some(exp) => {
                        if now >= exp {
                            return Value::Null;
                        } else {
                            return Value::BulkString(clone_bytes(&e.value));
                        }
                    }
                    None => {
                        return Value::BulkString(clone_bytes(&e.value));
                    }
                }
            }
        }
        proof {
            lemma_entries_map_absent(s, key@);
        }
        Value::Null
    }

    /// Stores `value` under `key` at time `now`, overwriting any prior
    /// entry; with a TTL the entry expires `ttl` milliseconds from `now`
    /// (saturating). Always succeeds with the reply `+OK`.
    #[verifier::loop_isolation(false)]
    pub fn set(&mut self, key: Vec<u8>, value: Vec<u8>, ttl: Option<u64>, now: u64) -> (r: Value)
        ensures
            final(self)@ == old(self)@.insert(
                key@,
                SpecEntry { value: value@, expires_at: spec_expiry(ttl, now) },
            ),
            model(r) == SpecVal::SimpleString(crate::command::spec_msg_ok()),
    {
        let expires_at: Option<u64> = match ttl {
            Some(t) => Some(
                if t <= u64::MAX - now {
                    now + t
                } else {
                    u64::MAX
                },
            ),
            None => None,
        };
        let entry = ExpiringValue { value, expires_at };
        let ghost s = self.entries@;
        let mut i: usize = self.entries.len();
        while i > 0
            invariant
                i <= s.len(),
                s == self.entries@,
                forall|j: int| i <= j < s.len() ==> (#[trigger] s[j].0@) != key@,
            decreases i,
        {
            i -= 1;
            if crate::command::bytes_eq(&self.entries[i].0, &key) {
                proof {
                    lemma_entries_map_update(s, i as int, (key, entry));
                }
                self.entries[i] = (key, entry);
                return Value::SimpleString(crate::command::msg_ok());
            }
        }
        proof {
            lemma_entries_map_absent(s, key@);
        }
        self.entries.push((key, entry));
        proof {
            assert(self.entries@.drop_last() =~= s);
            assert(self@ =~= old(self)@.insert(
                key@,
                SpecEntry { value: value@, expires_at: spec_expiry(ttl, now) },
            ));
        }
        Value::SimpleString(crate::command::msg_ok())
    }
}

/// A plain `set` persists: without a TTL, a later `get` of the key returns
/// the stored bytes whatever time it samples.
pub proof fn lemma_plain_set_persists(
    m: Map<Seq<u8>, SpecEntry>,
    k: Seq<u8>,
    v: Seq<u8>,
    later: u64,
)
    ensures
        spec_get(m.insert(k, SpecEntry { value: v, expires_at: None }), k, later)
            == SpecVal::BulkString(v),
{
}

/// TTL semantics: after a `set` with a TTL at time `now`, a `get` sampled
/// before the absolute expiry returns the bytes, and one sampled at or
/// after it returns `Null`.
pub proof fn lemma_ttl_mask(
    m: Map<Seq<u8>, SpecEntry>,
    k: Seq<u8>,
    v: Seq<u8>,
    now: u64,
    ttl: u64,
    t: u64,
)
    ensures
        ({
            let m2 = m.insert(k, SpecEntry { value: v, expires_at: spec_expiry(Some(ttl), now) });
            &&& t < sat_add(now, ttl) ==> spec_get(m2, k, t) == SpecVal::BulkString(v)
            &&& t >= sat_add(now, ttl) ==> spec_get(m2, k, t) == SpecVal::Null
        }),
{
}

/// An unknown key reads as `Null`.
pub proof fn lemma_get_missing(m: Map<Seq<u8>, SpecEntry>, k: Seq<u8>, now: u64)
    requires
        !m.contains_key(k),
    ensures
        spec_get(m, k, now) == SpecVal::Null,
{
}

} // verus!
