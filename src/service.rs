use lru_cache::LruCache;
use std::collections::{HashMap, HashSet};
use vstd::prelude::*;

use crate::cache::{cache_bound, cache_clear, cache_contents, cache_get, cache_insert, cache_len, cache_new};
use crate::codec::{
    decode_spec, decode_state_diff, encode_state_diff, encodable, is_encoding_of, lemma_round_trip,
    CompressorError, DiffModel, StateDiff,
};
use crate::event::cse_key;
use crate::layers::{
    apply, apply_change, below, clean_change, clone_stack, engine, lands_on, lemma_engine_places,
    plan_state_diff, stack_ok, stack_view, InfoModel, ShortStateInfo,
};
use crate::stateset::{copy_set, set_difference};

verus! {

broadcast use vstd::std_specs::hash::group_hash_axioms;

/// What `save_state` returns: the short state hash of the saved state and its
/// change against the previous state of the room.
pub struct HashSetCompressStateEvent {
    pub shortstatehash: u64,
    pub added: HashSet<u128>,
    pub removed: HashSet<u128>,
}

/// Layer `i` of `s` is what the record stored under its short state hash
/// says: its parent is the layer below (none for the root) and it adds what
/// the record adds. Above the root it removes what the record removes and its
/// full state is that change applied to the layer below; the root's full
/// state is what it adds, and it removes nothing, whatever its record lists.
pub open spec fn record_ok(store: Map<u64, Vec<u8>>, s: Seq<InfoModel>, i: int) -> bool {
    let d = decode_spec(store[s[i].ssh]@)->Some_0;
    &&& store.contains_key(s[i].ssh)
    &&& decode_spec(store[s[i].ssh]@) is Some
    &&& d.parent == if i == 0 {
        None
    } else {
        Some(s[i - 1].ssh)
    }
    &&& d.added == s[i].added
    &&& if i == 0 {
        s[i].removed == Set::<u128>::empty() && s[i].full == s[i].added
    } else {
        d.removed == s[i].removed && s[i].full == apply(s[i - 1].full, s[i].added, s[i].removed)
    }
}

/// `s` is the materialized stack of `k` in `store`: root first, `k` last.
pub open spec fn chain_of(store: Map<u64, Vec<u8>>, k: u64, s: Seq<InfoModel>) -> bool {
    &&& s.len() > 0
    &&& s.last().ssh == k
    &&& forall|i: int| 0 <= i < s.len() ==> #[trigger] record_ok(store, s, i)
}

/// The full state at the top of a stack; nothing for an empty stack.
pub open spec fn top_state(s: Seq<InfoModel>) -> Set<u128> {
    below(s, s.len() as int)
}

proof fn lemma_chain_drop_last(store: Map<u64, Vec<u8>>, k: u64, s: Seq<InfoModel>)
    requires
        chain_of(store, k, s),
        s.len() > 1,
    ensures
        chain_of(store, s[s.len() - 2].ssh, s.drop_last()),
{
    let t = s.drop_last();
    assert forall|i: int| 0 <= i < t.len() implies #[trigger] record_ok(store, t, i) by {
        assert(record_ok(store, s, i));
        assert(t[i] == s[i]);
        if i > 0 {
            assert(t[i - 1] == s[i - 1]);
        }
    }
}

proof fn lemma_chain_no_repeat(store: Map<u64, Vec<u8>>, k: u64, s: Seq<InfoModel>, i: int, j: int)
    requires
        chain_of(store, k, s),
        0 <= i < j < s.len(),
    ensures
        s[i].ssh != s[j].ssh,
    decreases i,
{
    assert(record_ok(store, s, i));
    assert(record_ok(store, s, j));
    if i > 0 {
        lemma_chain_no_repeat(store, k, s, i - 1, j - 1);
    }
}

/// A materialized stack never holds more layers than the store holds records.
proof fn lemma_chain_len(store: Map<u64, Vec<u8>>, k: u64, s: Seq<InfoModel>)
    requires
        chain_of(store, k, s),
        store.dom().finite(),
    ensures
        s.len() <= store.dom().len(),
{
    let hs = s.map_values(|l: InfoModel| l.ssh);
    assert forall|i: int, j: int| 0 <= i < hs.len() && 0 <= j < hs.len() && i != j implies hs[i]
        != hs[j] by {
        assert(hs[i] == s[i].ssh);
        assert(hs[j] == s[j].ssh);
        if i < j {
            lemma_chain_no_repeat(store, k, s, i, j);
        } else {
            lemma_chain_no_repeat(store, k, s, j, i);
        }
    }
    assert(hs.no_duplicates());
    hs.unique_seq_to_set();
    assert forall|h: u64| hs.to_set().contains(h) implies store.dom().contains(h) by {
        let i = choose|i: int| 0 <= i < hs.len() && hs[i] == h;
        assert(record_ok(store, s, i));
    }
    vstd::set_lib::lemma_len_subset(hs.to_set(), store.dom());
}

/// A store holds at most one materialized stack for a short state hash: two
/// loads of the same hash, one served from the cache and one walked through
/// the store, give equal stacks.
pub proof fn lemma_chain_unique(
    store: Map<u64, Vec<u8>>,
    k: u64,
    s1: Seq<InfoModel>,
    s2: Seq<InfoModel>,
)
    requires
        chain_of(store, k, s1),
        chain_of(store, k, s2),
    ensures
        s1 == s2,
    decreases s1.len(),
{
    let n1 = s1.len() as int;
    let n2 = s2.len() as int;
    assert(record_ok(store, s1, n1 - 1));
    assert(record_ok(store, s2, n2 - 1));
    if n1 == 1 {
        if n2 > 1 {
            assert(false);
        }
        assert(s1[0].ssh == s2[0].ssh);
        assert(s1[0].added == s2[0].added);
        assert(s1[0].removed == s2[0].removed);
        assert(s1[0].full == s2[0].full);
        assert(s1[0] == s2[0]);
        assert(s1 =~= s2);
    } else {
        if n2 == 1 {
            assert(false);
        }
        lemma_chain_drop_last(store, k, s1);
        lemma_chain_drop_last(store, k, s2);
        lemma_chain_unique(store, s1[n1 - 2].ssh, s1.drop_last(), s2.drop_last());
        assert(s1.drop_last()[n1 - 2] == s1[n1 - 2]);
        assert(s2.drop_last()[n2 - 2] == s2[n2 - 2]);
        assert(n1 == n2);
        assert(s1[n1 - 1] == s2[n1 - 1]);
        assert forall|i: int| 0 <= i < n1 implies s1[i] == s2[i] by {
            if i < n1 - 1 {
                assert(s1.drop_last()[i] == s1[i]);
                assert(s2.drop_last()[i] == s2[i]);
            }
        }
        assert(s1 =~= s2);
    }
}

/// A materialized stack stays the same when a record is added under a hash
/// that had none: states saved earlier load as before after later saves.
pub proof fn lemma_chain_persists(store: Map<u64, Vec<u8>>, k: u64, s: Seq<InfoModel>, n: u64, v: Vec<u8>)
    requires
        chain_of(store, k, s),
        !store.contains_key(n),
    ensures
        chain_of(store.insert(n, v), k, s),
{
    assert forall|i: int| 0 <= i < s.len() implies #[trigger] record_ok(store.insert(n, v), s, i) by {
        assert(record_ok(store, s, i));
    }
}

/// A save of the state `s` over `previous` went as follows, `st` being the
/// stack it was taken against: the stack is the previous state's
/// materialized stack, or empty (always so where there is no previous state);
/// the change returned is `s` against the stack's top state; where the hash
/// already existed nothing is written; otherwise the record that the layer
/// engine decides on for that change is stored under the new hash, or the
/// save fails with an overflow and nothing is written.
pub open spec fn saved_over(
    store0: Map<u64, Vec<u8>>,
    store1: Map<u64, Vec<u8>>,
    previous: Option<u64>,
    new_ssh: u64,
    existed: bool,
    s: Set<u128>,
    st: Seq<InfoModel>,
    r: Result<HashSetCompressStateEvent, CompressorError>,
) -> bool {
    let added = s.difference(top_state(st));
    let removed = top_state(st).difference(s);
    &&& st.len() == 0 || (previous matches Some(p) && chain_of(store0, p, st))
    &&& previous matches Some(p) ==> ((exists|c: Seq<InfoModel>| chain_of(store0, p, c)) ==> chain_of(
        store0,
        p,
        st,
    ))
    &&& previous is None ==> st.len() == 0
    &&& (r matches Ok(x) ==> x.added@ == added && x.removed@ == removed)
    &&& existed ==> r is Ok && store1 == store0
    &&& !existed ==> match engine(added, removed, 2, st) {
        Some(d) => r is Ok && exists|bytes: Vec<u8>|
            store1 == store0.insert(new_ssh, bytes) && is_encoding_of(#[trigger] bytes@, d),
        None => r == Err::<HashSetCompressStateEvent, CompressorError>(
            CompressorError::ArithmeticOverflow,
        ) && store1 == store0,
    }
}

/// Every record names a parent that has a record of its own.
pub open spec fn parents_present(store: Map<u64, Vec<u8>>) -> bool {
    forall|k: u64|
        #[trigger] store.contains_key(k) ==> (decode_spec(store[k]@) matches Some(d) ==> (
        d.parent matches Some(p) ==> store.contains_key(p)))
}

/// Every materialized stack of the store is well formed.
pub open spec fn chains_clean(store: Map<u64, Vec<u8>>) -> bool {
    forall|k: u64, s: Seq<InfoModel>| #[trigger] chain_of(store, k, s) ==> stack_ok(s)
}

proof fn lemma_chain_prefix(store: Map<u64, Vec<u8>>, k: u64, s: Seq<InfoModel>, m: int)
    requires
        chain_of(store, k, s),
        0 < m <= s.len(),
    ensures
        chain_of(store, s[m - 1].ssh, s.take(m)),
{
    let t = s.take(m);
    assert forall|i: int| 0 <= i < t.len() implies #[trigger] record_ok(store, t, i) by {
        assert(record_ok(store, s, i));
        assert(t[i] == s[i]);
        if i > 0 {
            assert(t[i - 1] == s[i - 1]);
        }
    }
}

proof fn lemma_chain_without(store0: Map<u64, Vec<u8>>, n: u64, v: Vec<u8>, k: u64, s: Seq<InfoModel>)
    requires
        chain_of(store0.insert(n, v), k, s),
        forall|i: int| 0 <= i < s.len() ==> (#[trigger] s[i]).ssh != n,
    ensures
        chain_of(store0, k, s),
{
    assert forall|i: int| 0 <= i < s.len() implies #[trigger] record_ok(store0, s, i) by {
        assert(record_ok(store0.insert(n, v), s, i));
        assert(s[i].ssh != n);
    }
}

/// The layer that a record `d` makes on top of the stack `p`; on an empty
/// stack it is a root, whose full state is what it adds.
pub open spec fn new_layer(ssh: u64, d: DiffModel, p: Seq<InfoModel>) -> InfoModel {
    if p.len() == 0 {
        InfoModel { ssh, full: d.added, added: d.added, removed: Set::empty() }
    } else {
        InfoModel {
            ssh,
            full: apply(top_state(p), d.added, d.removed),
            added: d.added,
            removed: d.removed,
        }
    }
}

/// The full state that a change `(a, r)` gives on top of the stack `s`: on
/// an empty stack, what it adds.
pub open spec fn layer_result(s: Seq<InfoModel>, a: Set<u128>, r: Set<u128>) -> Set<u128> {
    if s.len() == 0 {
        a
    } else {
        apply(top_state(s), a, r)
    }
}

/// A record `d` stored under a fresh hash, standing on the materialized stack
/// `p` (on nothing where `p` is empty), as a clean change of its top state
/// where there is one,
/// extends that stack by one layer; and the store keeps its records' parents
/// present and its stacks well formed.
proof fn lemma_record_extends(
    store0: Map<u64, Vec<u8>>,
    ssh: u64,
    bytes: Vec<u8>,
    d: DiffModel,
    p: Seq<InfoModel>,
)
    requires
        !store0.contains_key(ssh),
        ssh != 0,
        !store0.contains_key(0),
        parents_present(store0),
        chains_clean(store0),
        decode_spec(bytes@) == Some(d),
        p.len() == 0 ==> d.parent is None,
        p.len() > 0 ==> d.parent == Some(p.last().ssh) && chain_of(store0, p.last().ssh, p),
        p.len() > 0 ==> clean_change(top_state(p), d.added, d.removed),
    ensures
        chain_of(store0.insert(ssh, bytes), ssh, p.push(new_layer(ssh, d, p))),
        parents_present(store0.insert(ssh, bytes)),
        chains_clean(store0.insert(ssh, bytes)),
        !store0.insert(ssh, bytes).contains_key(0),
{
    let store1 = store0.insert(ssh, bytes);
    let t = p.push(new_layer(ssh, d, p));
    if p.len() == 0 {
        assert(apply(Set::<u128>::empty(), d.added, Set::<u128>::empty()) =~= d.added);
    }
    assert forall|i: int| 0 <= i < t.len() implies #[trigger] record_ok(store1, t, i) by {
        if i < p.len() {
            assert(record_ok(store0, p, i));
            assert(t[i] == p[i]);
            if i > 0 {
                assert(t[i - 1] == p[i - 1]);
            }
        } else if i > 0 {
            assert(t[i - 1] == p[i - 1]);
        }
    }
    assert(chain_of(store1, ssh, t));
    assert forall|k: u64| #[trigger] store1.contains_key(k) implies (decode_spec(store1[k]@) matches Some(
        dd,
    ) ==> (dd.parent matches Some(q) ==> store1.contains_key(q))) by {
        if k == ssh {
            if p.len() > 0 {
                assert(record_ok(store0, p, p.len() - 1));
            }
        } else {
            assert(store0.contains_key(k));
        }
    }
    assert forall|k: u64, s: Seq<InfoModel>| #[trigger] chain_of(store1, k, s) implies stack_ok(s) by {
        if exists|i: int| 0 <= i < s.len() && (#[trigger] s[i]).ssh == ssh {
            let i = choose|i: int| 0 <= i < s.len() && (#[trigger] s[i]).ssh == ssh;
            if i < s.len() - 1 {
                lemma_chain_no_repeat(store1, k, s, i, i + 1);
                assert(record_ok(store1, s, i + 1));
                assert(store0.contains_key(s[i + 1].ssh));
                assert(store1[s[i + 1].ssh] == store0[s[i + 1].ssh]);
                assert(false);
            }
            let n = s.len() as int;
            assert(record_ok(store1, s, n - 1));
            assert(store1[ssh] == bytes);
            if n == 1 {
                assert(p.len() == 0);
                assert(s =~= t) by {
                    assert(s[0].full == t[0].full);
                }
            } else {
                assert(p.len() > 0);
                lemma_chain_prefix(store1, k, s, n - 1);
                let q = s.take(n - 1);
                assert forall|j: int| 0 <= j < q.len() implies (#[trigger] q[j]).ssh != ssh by {
                    assert(q[j] == s[j]);
                    lemma_chain_no_repeat(store1, k, s, j, n - 1);
                }
                lemma_chain_without(store0, ssh, bytes, s[n - 2].ssh, q);
                lemma_chain_unique(store0, p.last().ssh, q, p);
                assert(s =~= t) by {
                    assert forall|j: int| 0 <= j < n implies s[j] == t[j] by {
                        if j < n - 1 {
                            assert(q[j] == s[j]);
                        } else {
                            assert(q[n - 2] == s[n - 2]);
                        }
                    }
                }
            }
            assert(stack_ok(p));
            assert forall|j: int| 0 <= j < t.len() implies clean_change(
                below(t, j),
                #[trigger] t[j].added,
                t[j].removed,
            ) && t[j].full == apply(below(t, j), t[j].added, t[j].removed) by {
                if j < p.len() {
                    assert(t[j] == p[j]);
                    assert(below(t, j) == below(p, j));
                } else {
                    assert(below(t, j) == top_state(p));
                }
            }
        } else {
            lemma_chain_without(store0, ssh, bytes, k, s);
        }
    }
}

/// The state compressor: the diff records by short state hash, and a bounded
/// cache of materialized stacks.
pub struct Service {
    stateinfo_cache: LruCache<u64, Vec<ShortStateInfo>>,
    shortstatehash_statediff: HashMap<u64, Vec<u8>>,
}

impl Service {
    /// The diff records, by short state hash.
    pub closed spec fn store(&self) -> Map<u64, Vec<u8>> {
        self.shortstatehash_statediff@
    }

    /// The stacks held in the cache, by short state hash.
    pub closed spec fn cached(&self) -> Map<u64, Seq<InfoModel>> {
        cache_contents(self.stateinfo_cache)
    }

    /// The number of stacks the cache was made to hold at most.
    pub closed spec fn cache_capacity(&self) -> usize {
        cache_bound(self.stateinfo_cache)
    }

    /// Every stack in the cache is the materialized stack of its key.
    pub closed spec fn wf(&self) -> bool {
        &&& !self.store().contains_key(0)
        &&& parents_present(self.store())
        &&& chains_clean(self.store())
        &&& forall|k: u64|
            #[trigger] cache_contents(self.stateinfo_cache).contains_key(k) ==> chain_of(
                self.store(),
                k,
                cache_contents(self.stateinfo_cache)[k],
            )
    }

    /// A compressor with no records and a cache of `cache_capacity` stacks.
    pub fn build(cache_capacity: usize) -> (r: Service)
        ensures
            r.wf(),
            r.store() == Map::<u64, Vec<u8>>::empty(),
            r.cached().dom().is_empty(),
            r.cache_capacity() == cache_capacity,
    {
        let r = Service { stateinfo_cache: cache_new(cache_capacity), shortstatehash_statediff: HashMap::new() };
        assert(r.store() =~= Map::<u64, Vec<u8>>::empty());
        assert forall|k: u64, st: Seq<InfoModel>| #[trigger] chain_of(r.store(), k, st) implies stack_ok(st) by {
            assert(record_ok(r.store(), st, 0));
        }
        r
    }

    /// Empties the cache of materialized stacks.
    pub fn clear_cache(&mut self)
        requires
            old(self).wf(),
        ensures
            final(self).wf(),
            final(self).store() == old(self).store(),
            final(self).cached().dom().is_empty(),
            final(self).cache_capacity() == old(self).cache_capacity(),
    {
        cache_clear(&mut self.stateinfo_cache);
    }

    /// The number of stacks in the cache.
    pub fn cache_entries(&self) -> (r: usize)
        ensures
            r == self.cached().dom().len(),
    {
        cache_len(&self.stateinfo_cache)
    }

    /// Whether a record is stored for `shortstatehash`.
    pub fn has_statediff(&self, shortstatehash: u64) -> (r: bool)
        ensures
            r == self.store().contains_key(shortstatehash),
    {
        self.shortstatehash_statediff.contains_key(&shortstatehash)
    }

    /// Reads and decodes the record of `shortstatehash`.
    pub fn get_statediff(&self, shortstatehash: u64) -> (r: Result<StateDiff, CompressorError>)
        ensures
            !self.store().contains_key(shortstatehash) ==> r == Err::<StateDiff, CompressorError>(
                CompressorError::NotFound(shortstatehash),
            ),
            self.store().contains_key(shortstatehash) ==> match decode_spec(
                self.store()[shortstatehash]@,
            ) {
                Some(d) => r matches Ok(x) && x@ == d,
                None => r == Err::<StateDiff, CompressorError>(CompressorError::CorruptRecord),
            },
    {
        match self.shortstatehash_statediff.get(&shortstatehash) {
            Some(value) => decode_state_diff(value.as_slice()),
            None => Err(CompressorError::NotFound(shortstatehash)),
        }
    }

    /// Returns the materialized stack of `shortstatehash`, root first: for
    /// each layer its short state hash, full state, and own change. Stacks
    /// found on the way are taken from the cache, and every stack built is
    /// put in it. A chain that holds more layers than there are records
    /// repeats a record and is corrupt.
    #[verifier::rlimit(40)]
    pub fn load_shortstatehash_info(&mut self, shortstatehash: u64) -> (r: Result<
        Vec<ShortStateInfo>,
        CompressorError,
    >)
        requires
            old(self).wf(),
        ensures
            final(self).wf(),
            final(self).store() == old(self).store(),
            r matches Ok(v) ==> chain_of(old(self).store(), shortstatehash, stack_view(v@)),
            r matches Err(e) ==> (e matches CompressorError::NotFound(x) ==> !old(
                self,
            ).store().contains_key(x) && (x == shortstatehash || exists|k: u64|
                old(self).store().contains_key(k) && (#[trigger] decode_spec(old(self).store()[k]@))
                    is Some && decode_spec(old(self).store()[k]@)->Some_0.parent == Some(x))),
            (exists|s: Seq<InfoModel>| chain_of(old(self).store(), shortstatehash, s)) ==> r is Ok,
            final(self).cache_capacity() == old(self).cache_capacity(),
            r is Err ==> final(self).cached() == old(self).cached(),
            r matches Ok(v) ==> (old(self).cached().contains_key(shortstatehash)
                || final(self).cache_capacity() > 0) ==> final(self).cached().contains_key(
                shortstatehash,
            ) && final(self).cached()[shortstatehash] == stack_view(v@),
    {
        match cache_get(&mut self.stateinfo_cache, shortstatehash) {
            Some(v) => {
                return Ok(v);
            },
            None => {},
        }
        let ghost store = self.store();
        let ghost has = exists|s: Seq<InfoModel>| chain_of(store, shortstatehash, s);
        let ghost sc = choose|s: Seq<InfoModel>| chain_of(store, shortstatehash, s);
        let limit = self.shortstatehash_statediff.len();
        proof {
            if has {
                lemma_chain_len(store, shortstatehash, sc);
            }
        }
        let mut hashes: Vec<u64> = Vec::new();
        let mut pending: Vec<StateDiff> = Vec::new();
        let mut base: Vec<ShortStateInfo> = Vec::new();
        let mut cur = shortstatehash;
        let mut done = false;
        while !done
            invariant
                self.wf(),
                self.store() == store,
                store == old(self).store(),
                self.cached() == old(self).cached(),
                self.cache_capacity() == old(self).cache_capacity(),
                !old(self).cached().contains_key(shortstatehash),
                hashes.len() == pending.len(),
                hashes.len() <= limit + 1,
                !done ==> base@.len() == 0,
                has == exists|s: Seq<InfoModel>| chain_of(store, shortstatehash, s),
                has ==> chain_of(store, shortstatehash, sc) && sc.len() <= limit,
                has ==> hashes.len() <= sc.len(),
                has && !done ==> hashes.len() < sc.len() && cur == sc[sc.len() - 1 - hashes.len()].ssh,
                hashes.len() == 0 ==> cur == shortstatehash && !done,
                hashes.len() > 0 ==> hashes[0] == shortstatehash,
                forall|j: int|
                    0 <= j < hashes.len() ==> store.contains_key(#[trigger] hashes@[j]) && decode_spec(
                        store[hashes@[j]]@,
                    ) == Some(pending@[j]@),
                forall|j: int|
                    0 <= j && j + 1 < hashes.len() ==> (#[trigger] pending@[j]).parent == Some(
                        hashes@[j + 1],
                    ),
                !done && hashes.len() > 0 ==> pending@.last().parent == Some(cur),
                done ==> hashes.len() > 0 && (if base@.len() == 0 {
                    pending@.last().parent is None
                } else {
                    pending@.last().parent == Some(stack_view(base@).last().ssh) && chain_of(
                        store,
                        stack_view(base@).last().ssh,
                        stack_view(base@),
                    )
                }),
            decreases limit + 1 - hashes.len(),
        {
            if hashes.len() > limit {
                return Err(CompressorError::CorruptRecord);
            }
            proof {
                if has {
                    assert(record_ok(store, sc, sc.len() - 1 - hashes.len()));
                }
            }
            let diff = match self.shortstatehash_statediff.get(&cur) {
                Some(value) => match decode_state_diff(value.as_slice()) {
                    Ok(d) => d,
                    Err(e) => {
                        assert(value@ == store[cur]@);
                        assert(!has);
                        return Err(e);
                    },
                },
                None => {
                    proof {
                        if hashes.len() > 0 {
                            let k = hashes@.last();
                            assert(store.contains_key(k));
                            assert(decode_spec(store[k]@) == Some(pending@.last()@));
                        }
                    }
                    return Err(CompressorError::NotFound(cur));
                },
            };
            let parent = diff.parent;
            let ghost dm = diff@;
            hashes.push(cur);
            pending.push(diff);
            assert(pending@.last()@ == dm);
            match parent {
                None => {
                    done = true;
                },
                Some(p) => {
                    cur = p;
                    let ghost cache0 = cache_contents(self.stateinfo_cache);
                    match cache_get(&mut self.stateinfo_cache, p) {
                        Some(v) => {
                            assert(cache0.contains_key(p));
                            assert(chain_of(store, p, cache0[p]));
                            base = v;
                            assert(stack_view(base@).len() == base@.len());
                            assert(stack_view(base@) == cache0[p]);
                            assert(stack_view(base@).last().ssh == p);
                            done = true;
                        },
                        None => {},
                    }
                },
            }
        }
        let mut stack = base;
        while pending.len() > 0
            invariant
                self.wf(),
                self.store() == store,
                store == old(self).store(),
                self.cache_capacity() == old(self).cache_capacity(),
                !old(self).cached().contains_key(shortstatehash),
                pending.len() == 0 && self.cache_capacity() > 0 ==> self.cached().contains_key(
                    shortstatehash,
                ) && self.cached()[shortstatehash] == stack_view(stack@),
                hashes.len() == pending.len(),
                hashes.len() > 0 ==> hashes[0] == shortstatehash,
                forall|j: int|
                    0 <= j < hashes.len() ==> store.contains_key(#[trigger] hashes@[j]) && decode_spec(
                        store[hashes@[j]]@,
                    ) == Some(pending@[j]@),
                forall|j: int|
                    0 <= j && j + 1 < hashes.len() ==> (#[trigger] pending@[j]).parent == Some(
                        hashes@[j + 1],
                    ),
                pending.len() == 0 ==> stack@.len() > 0 && stack_view(stack@).last().ssh
                    == shortstatehash,
                pending.len() > 0 ==> if stack@.len() == 0 {
                    pending@.last().parent is None
                } else {
                    pending@.last().parent == Some(stack_view(stack@).last().ssh)
                },
                stack@.len() > 0 ==> chain_of(
                    store,
                    stack_view(stack@).last().ssh,
                    stack_view(stack@),
                ),
            decreases pending.len(),
        {
            let ghost before = stack_view(stack@);
            let ghost p_before = pending@;
            let ghost h_before = hashes@;
            let diff = match pending.pop() {
                Some(d) => d,
                None => {
                    return Err(CompressorError::CorruptRecord);
                },
            };
            let h = match hashes.pop() {
                Some(h) => h,
                None => {
                    return Err(CompressorError::CorruptRecord);
                },
            };
            assert(diff == p_before.last());
            assert(h == h_before.last());
            let n = stack.len();
            let (full, removed) = if n == 0 {
                let none: HashSet<u128> = HashSet::new();
                assert(none@ =~= Set::<u128>::empty());
                (copy_set(&diff.added), none)
            } else {
                (apply_change(&stack[n - 1].full_state, &diff.added, &diff.removed), diff.removed)
            };
            stack.push(ShortStateInfo { shortstatehash: h, full_state: full, added: diff.added, removed });
            let ghost after = stack_view(stack@);
            assert(after =~= before.push(after.last()));
            assert forall|i: int| 0 <= i < after.len() implies #[trigger] record_ok(store, after, i) by {
                if i < n {
                    assert(record_ok(store, before, i));
                    assert(after[i] == before[i]);
                    if i > 0 {
                        assert(after[i - 1] == before[i - 1]);
                    }
                } else {
                    assert(h_before.len() == p_before.len());
                    let last = h_before.len() - 1;
                    assert(store.contains_key(h_before[last]) && decode_spec(store[h_before[last]]@)
                        == Some(p_before[last]@));
                    if n > 0 {
                        assert(after[n - 1] == before[n - 1]);
                        assert(stack@[n as int - 1]@ == before[n - 1]);
                    }
                }
            }
            assert(chain_of(store, h, after));
            if pending.len() > 0 {
                assert(pending@.last() == p_before[p_before.len() - 2]);
                assert(hashes@.len() == h_before.len() - 1);
                assert(h_before[h_before.len() - 1] == h);
            }
            let copy = clone_stack(&stack);
            let ghost cache0 = cache_contents(self.stateinfo_cache);
            cache_insert(&mut self.stateinfo_cache, h, copy);
            assert forall|k: u64| #[trigger]
                cache_contents(self.stateinfo_cache).contains_key(k) implies chain_of(
                self.store(),
                k,
                cache_contents(self.stateinfo_cache)[k],
            ) by {
                assert(cache0.insert(h, after).contains_key(k));
                if k != h {
                    assert(cache0.contains_key(k));
                }
            }
        }
        Ok(stack)
    }

    /// Stores the change `(statediffnew, statediffremoved)` on top of
    /// `parent_states` as the record of `shortstatehash`, where the layer
    /// engine places it. The stack is the materialized stack of its top (or
    /// empty), the change is a clean change of a nonempty stack's top state,
    /// and the state it gives holds only events with nonzero short state
    /// keys. On an empty stack the change is written as given.
    pub fn save_state_from_diff(
        &mut self,
        shortstatehash: u64,
        statediffnew: HashSet<u128>,
        statediffremoved: HashSet<u128>,
        diff_to_sibling: usize,
        parent_states: Vec<ShortStateInfo>,
    ) -> (r: Result<(), CompressorError>)
        requires
            old(self).wf(),
            shortstatehash != 0,
            !old(self).store().contains_key(shortstatehash),
            parent_states@.len() > 0 ==> chain_of(
                old(self).store(),
                stack_view(parent_states@).last().ssh,
                stack_view(parent_states@),
            ),
            parent_states@.len() > 0 ==> clean_change(
                top_state(stack_view(parent_states@)),
                statediffnew@,
                statediffremoved@,
            ),
            forall|c: u128|
                #[trigger] layer_result(
                    stack_view(parent_states@),
                    statediffnew@,
                    statediffremoved@,
                ).contains(c) ==> cse_key(c) != 0,
        ensures
            final(self).wf(),
            final(self).cached() == old(self).cached(),
            final(self).cache_capacity() == old(self).cache_capacity(),
            match engine(
                statediffnew@,
                statediffremoved@,
                diff_to_sibling as int,
                stack_view(parent_states@),
            ) {
                Some(d) => r is Ok && exists|bytes: Vec<u8>|
                    final(self).store() == old(self).store().insert(shortstatehash, bytes)
                        && is_encoding_of(#[trigger] bytes@, d),
                None => r == Err::<(), CompressorError>(CompressorError::ArithmeticOverflow)
                    && final(self).store() == old(self).store(),
            },
            r is Ok ==> exists|t: Seq<InfoModel>|
                #[trigger] chain_of(final(self).store(), shortstatehash, t) && t.last().full
                    == layer_result(stack_view(parent_states@), statediffnew@, statediffremoved@)
                    && t.len() <= 4,
    {
        let ghost sv = stack_view(parent_states@);
        let ghost a = statediffnew@;
        let ghost rm = statediffremoved@;
        let ghost store0 = self.store();
        proof {
            if sv.len() > 0 {
                assert(sv.len() == parent_states@.len());
                assert(stack_ok(sv));
            } else {
                assert(stack_ok(sv));
            }
        }
        match plan_state_diff(statediffnew, statediffremoved, diff_to_sibling, parent_states) {
            Ok(diff) => {
                let ghost d = diff@;
                proof {
                    lemma_engine_places(a, rm, diff_to_sibling as int, sv);
                }
                let ghost m = choose|m: int|
                    lands_on(engine(a, rm, diff_to_sibling as int, sv)->Some_0, sv, m) && (stack_ok(sv)
                        && clean_change(below(sv, sv.len() as int), a, rm) ==> clean_change(
                        below(sv, m),
                        engine(a, rm, diff_to_sibling as int, sv)->Some_0.added,
                        engine(a, rm, diff_to_sibling as int, sv)->Some_0.removed,
                    ) && apply(
                        below(sv, m),
                        engine(a, rm, diff_to_sibling as int, sv)->Some_0.added,
                        engine(a, rm, diff_to_sibling as int, sv)->Some_0.removed,
                    ) == apply(below(sv, sv.len() as int), a, rm));
                let ghost p = sv.take(m);
                proof {
                    assert(top_state(p) == below(sv, m));
                    if m > 0 {
                        lemma_chain_prefix(store0, sv.last().ssh, sv, m);
                        assert(p.last() == sv[m - 1]);
                        assert(record_ok(store0, sv, m - 1));
                    }
                    assert forall|c: u128| d.added.contains(c) implies cse_key(c) != 0 by {
                        if sv.len() == 0 {
                            assert(d.added == a);
                        } else {
                            assert(!d.removed.contains(c));
                            assert(apply(below(sv, m), d.added, d.removed).contains(c));
                        }
                        assert(layer_result(sv, a, rm).contains(c));
                    }
                    if m == 0 && sv.len() > 0 {
                        assert(d.removed =~= Set::<u128>::empty());
                        assert(apply(Set::<u128>::empty(), d.added, d.removed) =~= d.added);
                    }
                    assert(encodable(d));
                }
                self.save_statediff(shortstatehash, &diff);
                proof {
                    let bytes = choose|bytes: Vec<u8>|
                        self.store() == store0.insert(shortstatehash, bytes) && is_encoding_of(
                            #[trigger] bytes@,
                            d,
                        );
                    lemma_round_trip(bytes@, d);
                    lemma_record_extends(store0, shortstatehash, bytes, d, p);
                    let t = p.push(new_layer(shortstatehash, d, p));
                    assert(t.last().full == layer_result(sv, a, rm));
                    assert forall|k: u64| #[trigger]
                        cache_contents(self.stateinfo_cache).contains_key(k) implies chain_of(
                        self.store(),
                        k,
                        cache_contents(self.stateinfo_cache)[k],
                    ) by {
                        lemma_chain_persists(
                            store0,
                            k,
                            cache_contents(self.stateinfo_cache)[k],
                            shortstatehash,
                            bytes,
                        );
                    }
                }
                Ok(())
            },
            Err(e) => Err(e),
        }
    }

    /// Saves `new_state_ids_compressed` as the state of a room whose current
    /// state is `previous_shortstatehash`, under `new_shortstatehash`, the
    /// short state hash that the interner gave for the state's hash
    /// (`already_existed` when it had given it before). Where the new hash is
    /// the previous one nothing is written and the change is empty. Otherwise
    /// the change is taken against the top of the previous state's stack (an
    /// empty stack where there is no previous state or it cannot be loaded),
    /// and, unless the hash already existed, the layer engine stores it.
    pub fn save_state(
        &mut self,
        previous_shortstatehash: Option<u64>,
        new_shortstatehash: u64,
        already_existed: bool,
        new_state_ids_compressed: HashSet<u128>,
    ) -> (r: Result<HashSetCompressStateEvent, CompressorError>)
        requires
            old(self).wf(),
            new_shortstatehash != 0,
            !already_existed ==> !old(self).store().contains_key(new_shortstatehash),
            forall|c: u128| #[trigger] new_state_ids_compressed@.contains(c) ==> cse_key(c) != 0,
        ensures
            final(self).wf(),
            final(self).cache_capacity() == old(self).cache_capacity(),
            !already_existed && previous_shortstatehash != Some(new_shortstatehash) && r is Ok
                ==> exists|t: Seq<InfoModel>|
                #[trigger] chain_of(final(self).store(), new_shortstatehash, t) && t.last().full
                    == new_state_ids_compressed@ && t.len() <= 4,
            r matches Ok(x) ==> x.shortstatehash == new_shortstatehash,
            previous_shortstatehash == Some(new_shortstatehash) ==> (r matches Ok(x)
                && x.added@.is_empty() && x.removed@.is_empty()) && final(self).store() == old(
                self,
            ).store(),
            previous_shortstatehash != Some(new_shortstatehash) ==> exists|st: Seq<InfoModel>|
                #[trigger] saved_over(
                    old(self).store(),
                    final(self).store(),
                    previous_shortstatehash,
                    new_shortstatehash,
                    already_existed,
                    new_state_ids_compressed@,
                    st,
                    r,
                ),
    {
        if previous_shortstatehash == Some(new_shortstatehash) {
            return Ok(HashSetCompressStateEvent {
                shortstatehash: new_shortstatehash,
                added: HashSet::new(),
                removed: HashSet::new(),
            });
        }
        let ghost store0 = self.store();
        let states_parents: Vec<ShortStateInfo> = match previous_shortstatehash {
            Some(p) => match self.load_shortstatehash_info(p) {
                Ok(v) => v,
                Err(_) => Vec::new(),
            },
            None => Vec::new(),
        };
        let ghost st = stack_view(states_parents@);
        let ghost goal = new_state_ids_compressed@;
        let n = states_parents.len();
        assert(st.len() == n);
        let (statediffnew, statediffremoved) = if n == 0 {
            let empty: HashSet<u128> = HashSet::new();
            assert(new_state_ids_compressed@.difference(Set::empty()) =~= new_state_ids_compressed@);
            assert(Set::<u128>::empty().difference(new_state_ids_compressed@) =~= empty@);
            (new_state_ids_compressed, empty)
        } else {
            let tip = &states_parents[n - 1].full_state;
            assert(st[n - 1] == states_parents@[n - 1]@);
            (set_difference(&new_state_ids_compressed, tip), set_difference(tip, &new_state_ids_compressed))
        };
        proof {
            let top = top_state(st);
            assert(clean_change(top, statediffnew@, statediffremoved@));
            assert(apply(top, statediffnew@, statediffremoved@) =~= goal);
        }
        if !already_existed {
            let added_copy = copy_set(&statediffnew);
            let removed_copy = copy_set(&statediffremoved);
            match self.save_state_from_diff(new_shortstatehash, added_copy, removed_copy, 2, states_parents) {
                Ok(()) => {},
                Err(e) => {
                    let r = Err(e);
                    assert(saved_over(store0, self.store(), previous_shortstatehash, new_shortstatehash, already_existed, new_state_ids_compressed@, st, r));
                    return r;
                },
            }
        }
        let r = Ok(HashSetCompressStateEvent {
            shortstatehash: new_shortstatehash,
            added: statediffnew,
            removed: statediffremoved,
        });
        assert(saved_over(store0, self.store(), previous_shortstatehash, new_shortstatehash, already_existed, new_state_ids_compressed@, st, r));
        r
    }

    /// Encodes `diff` and stores it as the record of `shortstatehash`.
    fn save_statediff(&mut self, shortstatehash: u64, diff: &StateDiff)
        ensures
            final(self).stateinfo_cache == old(self).stateinfo_cache,
            exists|bytes: Vec<u8>|
                final(self).store() == old(self).store().insert(shortstatehash, bytes)
                    && is_encoding_of(#[trigger] bytes@, diff@),
    {
        let value = encode_state_diff(diff);
        let ghost store0 = self.store();
        let ghost bytes = value;
        self.shortstatehash_statediff.insert(shortstatehash, value);
        assert(self.store() == store0.insert(shortstatehash, bytes));
    }
}

} // verus!
