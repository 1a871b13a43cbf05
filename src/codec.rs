use std::collections::HashSet;
use vstd::prelude::*;

use crate::event::{
    compress_state_event, cse_be, cse_from_be, cse_key, lemma_cse_be_round_trip,
    lemma_u64_be_round_trip, push_u64_be, read_u64_be, u64_be, u64_from_be,
};
use crate::stateset::{canonical_order, set_elements, sorted_elements};

verus! {

broadcast use vstd::std_specs::hash::group_hash_axioms;

/// The errors of the state compressor.
#[derive(Debug, PartialEq, Eq, Structural, Clone, Copy)]
pub enum CompressorError {
    /// No diff record is stored for this short state hash.
    NotFound(u64),
    /// A stored diff record could not be decoded.
    CorruptRecord,
    /// The interner holds no event id for this short event id.
    UnknownEventShort(u64),
    /// A size computation of the layer engine overflowed.
    ArithmeticOverflow,
    /// The configured cache capacity could not be turned into an entry count.
    CacheCapacity,
}

/// One persisted layer: the parent layer, if any, and what this layer adds to
/// and removes from the parent's materialized state.
pub struct StateDiff {
    pub parent: Option<u64>,
    pub added: HashSet<u128>,
    pub removed: HashSet<u128>,
}

/// The mathematical content of a `StateDiff`.
pub struct DiffModel {
    pub parent: Option<u64>,
    pub added: Set<u128>,
    pub removed: Set<u128>,
}

impl View for StateDiff {
    type V = DiffModel;

    open spec fn view(&self) -> DiffModel {
        DiffModel { parent: self.parent, added: self.added@, removed: self.removed@ }
    }
}

/// The on-disk word for a parent: zero stands for no parent.
pub open spec fn parent_word(parent: Option<u64>) -> u64 {
    match parent {
        Some(p) => p,
        None => 0,
    }
}

/// The bytes of a sequence of compressed state events, sixteen per event.
pub open spec fn flat(s: Seq<u128>) -> Seq<u8>
    decreases s.len(),
{
    if s.len() == 0 {
        Seq::empty()
    } else {
        cse_be(s[0]) + flat(s.drop_first())
    }
}

/// The record that lists `added` and then `removed` in the given orders.
pub open spec fn encode_spec(parent: Option<u64>, added: Seq<u128>, removed: Seq<u128>) -> Seq<u8> {
    u64_be(parent_word(parent)) + flat(added) + if removed.len() > 0 {
        u64_be(0) + flat(removed)
    } else {
        Seq::empty()
    }
}

/// `bytes` is a record of `d`, its sets listed in some order, each event once.
pub open spec fn is_encoding_of(bytes: Seq<u8>, d: DiffModel) -> bool {
    exists|a: Seq<u128>, r: Seq<u128>|
        a.no_duplicates() && r.no_duplicates() && a.to_set() == d.added && r.to_set() == d.removed
            && bytes == #[trigger] encode_spec(
            d.parent,
            a,
            r,
        )
}

/// Adds the sets `x` and `y` to what a decoding step returned.
pub open spec fn join(x: Set<u128>, y: Set<u128>, res: Option<(Set<u128>, Set<u128>)>) -> Option<
    (Set<u128>, Set<u128>),
> {
    match res {
        Some(p) => Some((x.union(p.0), y.union(p.1))),
        None => None,
    }
}

/// Decodes the body of a record, the part after the parent word. In add mode
/// eight zero bytes are the separator that switches to remove mode; any other
/// sixteen bytes are one event of the current set. Bytes left over that make
/// no whole event leave the record corrupt.
pub open spec fn decode_body(b: Seq<u8>, add_mode: bool) -> Option<(Set<u128>, Set<u128>)>
    decreases b.len(),
{
    if b.len() == 0 {
        Some((Set::empty(), Set::empty()))
    } else if add_mode && b.len() >= 8 && u64_from_be(b) == 0 {
        decode_body(b.subrange(8, b.len() as int), false)
    } else if b.len() < 16 {
        None
    } else {
        let c = cse_from_be(b);
        if add_mode {
            join(set![c], Set::empty(), decode_body(b.subrange(16, b.len() as int), add_mode))
        } else {
            join(Set::empty(), set![c], decode_body(b.subrange(16, b.len() as int), add_mode))
        }
    }
}

/// The diff that a record holds, or `None` where the record is corrupt.
pub open spec fn decode_spec(b: Seq<u8>) -> Option<DiffModel> {
    if b.len() < 8 {
        None
    } else {
        let p = u64_from_be(b);
        match decode_body(b.subrange(8, b.len() as int), true) {
            Some(sets) => Some(
                DiffModel {
                    parent: if p == 0 {
                        None
                    } else {
                        Some(p)
                    },
                    added: sets.0,
                    removed: sets.1,
                },
            ),
            None => None,
        }
    }
}

/// A diff that a record can hold: a parent is never zero, and every added
/// event has a nonzero short state key, so that no added event reads as the
/// separator.
pub open spec fn encodable(d: DiffModel) -> bool {
    &&& d.parent != Some(0u64)
    &&& forall|c: u128| d.added.contains(c) ==> cse_key(c) != 0
}

proof fn lemma_flat_push(s: Seq<u128>, c: u128)
    ensures
        flat(s.push(c)) == flat(s) + cse_be(c),
    decreases s.len(),
{
    if s.len() == 0 {
        assert(s.push(c).drop_first() =~= Seq::<u128>::empty());
        assert(flat(Seq::<u128>::empty()) == Seq::<u8>::empty());
        assert(s.push(c)[0] == c);
        assert(flat(s.push(c)) == cse_be(c) + flat(s.push(c).drop_first()));
        assert(flat(s.push(c)) =~= flat(s) + cse_be(c));
    } else {
        assert(s.push(c).drop_first() =~= s.drop_first().push(c));
        lemma_flat_push(s.drop_first(), c);
        assert(s.push(c)[0] == s[0]);
        assert(flat(s.push(c)) == cse_be(s[0]) + flat(s.drop_first().push(c)));
        assert(flat(s.push(c)) =~= flat(s) + cse_be(c));
    }
}

proof fn lemma_decode_flat(a: Seq<u128>, tail: Seq<u8>, add_mode: bool)
    requires
        add_mode ==> forall|i: int| 0 <= i < a.len() ==> cse_key(#[trigger] a[i]) != 0,
    ensures
        decode_body(flat(a) + tail, add_mode) == if add_mode {
            join(a.to_set(), Set::empty(), decode_body(tail, add_mode))
        } else {
            join(Set::empty(), a.to_set(), decode_body(tail, add_mode))
        },
    decreases a.len(),
{
    let res = decode_body(tail, add_mode);
    if a.len() == 0 {
        assert(flat(a) + tail =~= tail);
        assert(a.to_set() =~= Set::empty());
        match res {
            Some(p) => {
                assert(Set::<u128>::empty().union(p.0) =~= p.0);
                assert(Set::<u128>::empty().union(p.1) =~= p.1);
            },
            None => {},
        }
    } else {
        let rest = a.drop_first();
        assert forall|i: int| add_mode && 0 <= i < rest.len() implies cse_key(#[trigger] rest[i])
            != 0 by {
            assert(rest[i] == a[i + 1]);
        }
        lemma_decode_flat(rest, tail, add_mode);
        lemma_cse_be_round_trip(a[0]);
        let b = flat(a) + tail;
        let inner = flat(rest) + tail;
        assert(b =~= cse_be(a[0]) + inner);
        assert(b.subrange(16, b.len() as int) =~= inner);
        assert(u64_from_be(b) == u64_from_be(cse_be(a[0])));
        assert(cse_from_be(b) == cse_from_be(cse_be(a[0])));
        assert(a.to_set() =~= set![a[0]].union(rest.to_set())) by {
            assert forall|x: u128| a.to_set().contains(x) implies set![a[0]].union(
                rest.to_set(),
            ).contains(x) by {
                let j = choose|j: int| 0 <= j < a.len() && a[j] == x;
                if j > 0 {
                    assert(rest[j - 1] == x);
                }
            }
            assert forall|x: u128| set![a[0]].union(rest.to_set()).contains(x) implies a.to_set().contains(
                x,
            ) by {
                if x != a[0] {
                    let j = choose|j: int| 0 <= j < rest.len() && rest[j] == x;
                    assert(a[j + 1] == x);
                } else {
                    assert(a[0] == x);
                }
            }
        }
        match res {
            Some(p) => {
                if add_mode {
                    assert(set![a[0]].union(rest.to_set().union(p.0)) =~= a.to_set().union(p.0));
                    assert(Set::<u128>::empty().union(Set::<u128>::empty().union(p.1)) =~= Set::<
                        u128,
                    >::empty().union(p.1));
                } else {
                    assert(set![a[0]].union(rest.to_set().union(p.1)) =~= a.to_set().union(p.1));
                    assert(Set::<u128>::empty().union(Set::<u128>::empty().union(p.0)) =~= Set::<
                        u128,
                    >::empty().union(p.0));
                }
            },
            None => {},
        }
    }
}

/// Decoding a record of an encodable diff gives that diff back, whatever
/// order its sets were listed in.
pub proof fn lemma_round_trip(bytes: Seq<u8>, d: DiffModel)
    requires
        encodable(d),
        is_encoding_of(bytes, d),
    ensures
        decode_spec(bytes) == Some(d),
{
    let (a, r) = choose|a: Seq<u128>, r: Seq<u128>|
        a.to_set() == d.added && r.to_set() == d.removed && bytes == #[trigger] encode_spec(
            d.parent,
            a,
            r,
        );
    lemma_u64_be_round_trip(parent_word(d.parent));
    lemma_u64_be_round_trip(0);
    let tail = if r.len() > 0 {
        u64_be(0) + flat(r)
    } else {
        Seq::empty()
    };
    assert(bytes.subrange(8, bytes.len() as int) =~= flat(a) + tail);
    assert(u64_from_be(bytes) == u64_from_be(u64_be(parent_word(d.parent))));
    assert forall|i: int| 0 <= i < a.len() implies cse_key(#[trigger] a[i]) != 0 by {
        assert(d.added.contains(a[i]));
    }
    lemma_decode_flat(a, tail, true);
    if r.len() > 0 {
        assert(tail.subrange(8, tail.len() as int) =~= flat(r) + Seq::empty());
        assert(u64_from_be(tail) == u64_from_be(u64_be(0)));
        lemma_decode_flat(r, Seq::empty(), false);
        assert(flat(Seq::<u128>::empty()) =~= Seq::<u8>::empty());
        assert(decode_body(Seq::<u8>::empty(), false) == Some((Set::<u128>::empty(), Set::<u128>::empty())));
        assert(Set::<u128>::empty().union(Set::<u128>::empty()) =~= Set::<u128>::empty());
        assert(r.to_set().union(Set::<u128>::empty()) =~= r.to_set());
        assert(a.to_set().union(Set::<u128>::empty()) =~= a.to_set());
        assert(Set::<u128>::empty().union(r.to_set()) =~= r.to_set());
    } else {
        assert(r.to_set() =~= Set::<u128>::empty());
        assert(a.to_set().union(Set::<u128>::empty()) =~= a.to_set());
        assert(Set::<u128>::empty().union(Set::<u128>::empty()) =~= Set::<u128>::empty());
    }
}

/// A record that lists events with nonzero short state keys and no
/// separator decodes to exactly those events added and none removed: no
/// such event reads as the separator.
pub proof fn lemma_no_separator_read(parent: u64, a: Seq<u128>)
    requires
        forall|i: int| 0 <= i < a.len() ==> cse_key(#[trigger] a[i]) != 0,
    ensures
        decode_spec(u64_be(parent) + flat(a)) == Some(
            DiffModel {
                parent: if parent == 0 {
                    None
                } else {
                    Some(parent)
                },
                added: a.to_set(),
                removed: Set::empty(),
            },
        ),
{
    let b = u64_be(parent) + flat(a);
    lemma_u64_be_round_trip(parent);
    assert(b.subrange(8, b.len() as int) =~= flat(a) + Seq::empty());
    assert(u64_from_be(b) == u64_from_be(u64_be(parent)));
    lemma_decode_flat(a, Seq::empty(), true);
    assert(a.to_set().union(Set::<u128>::empty()) =~= a.to_set());
    assert(Set::<u128>::empty().union(Set::<u128>::empty()) =~= Set::<u128>::empty());
}

pub(crate) fn push_events(out: &mut Vec<u8>, events: &Vec<u128>)
    ensures
        final(out)@ == old(out)@ + flat(events@),
{
    let ghost start = out@;
    for i in 0..events.len()
        invariant
            out@ == start + flat(events@.take(i as int)),
    {
        proof {
            assert(events@.take(i as int + 1) =~= events@.take(i as int).push(events@[i as int]));
            lemma_flat_push(events@.take(i as int), events@[i as int]);
            lemma_cse_be_round_trip(events@[i as int]);
        }
        let c = events[i];
        push_u64_be(out, (c >> 64u128) as u64);
        push_u64_be(out, c as u64);
        assert(out@ =~= start + flat(events@.take(i as int + 1)));
    }
    assert(events@.take(events@.len() as int) =~= events@);
}

/// The bytes that a state's hash is computed over: its events in increasing
/// order, sixteen bytes each. They depend on the members of the state alone.
pub open spec fn canonical_bytes(s: Set<u128>) -> Seq<u8> {
    flat(canonical_order(s))
}

/// The input of a state's hash, whatever order the set was filled in.
pub fn state_hash_input(state: &HashSet<u128>) -> (r: Vec<u8>)
    ensures
        r@ == canonical_bytes(state@),
{
    let events = sorted_elements(state);
    let mut out: Vec<u8> = Vec::new();
    push_events(&mut out, &events);
    assert(out@ =~= canonical_bytes(state@));
    out
}

/// Two states with the same members give the same hash input, however each
/// was built.
pub proof fn lemma_stable_hash_input(a: Set<u128>, b: Set<u128>)
    requires
        a =~= b,
    ensures
        canonical_bytes(a) == canonical_bytes(b),
{
}

/// Writes a diff as one record: the parent word, the added events, and, only
/// where some event is removed, the separator and the removed events.
pub fn encode_state_diff(diff: &StateDiff) -> (r: Vec<u8>)
    ensures
        is_encoding_of(r@, diff@),
        encodable(diff@) ==> decode_spec(r@) == Some(diff@),
{
    let mut out: Vec<u8> = Vec::new();
    let word = match diff.parent {
        Some(p) => p,
        None => 0,
    };
    push_u64_be(&mut out, word);
    let added = set_elements(&diff.added);
    push_events(&mut out, &added);
    let removed = set_elements(&diff.removed);
    if removed.len() > 0 {
        push_u64_be(&mut out, 0);
        push_events(&mut out, &removed);
    }
    proof {
        assert(out@ =~= encode_spec(diff.parent, added@, removed@));
        if encodable(diff@) {
            lemma_round_trip(out@, diff@);
        }
    }
    out
}

/// Reads a record back into a diff.
pub fn decode_state_diff(value: &[u8]) -> (r: Result<StateDiff, CompressorError>)
    ensures
        match decode_spec(value@) {
            Some(d) => r matches Ok(x) && x@ == d,
            None => r == Err::<StateDiff, CompressorError>(CompressorError::CorruptRecord),
        },
{
    let len = value.len();
    if len < 8 {
        return Err(CompressorError::CorruptRecord);
    }
    let word = read_u64_be(value, 0);
    assert(value@.subrange(0, len as int) =~= value@);
    let parent = if word == 0 {
        None
    } else {
        Some(word)
    };
    let mut added: HashSet<u128> = HashSet::new();
    let mut removed: HashSet<u128> = HashSet::new();
    let mut add_mode = true;
    let mut i: usize = 8;
    let ghost whole = value@.subrange(8, len as int);
    assert(join(added@, removed@, decode_body(whole, true)) == decode_body(whole, true)) by {
        match decode_body(whole, true) {
            Some(p) => {
                assert(added@.union(p.0) =~= p.0);
                assert(removed@.union(p.1) =~= p.1);
            },
            None => {},
        }
    }
    while i < len
        invariant
            8 <= i <= len,
            len == value@.len(),
            whole == value@.subrange(8, len as int),
            decode_body(whole, true) == join(
                added@,
                removed@,
                decode_body(value@.subrange(i as int, len as int), add_mode),
            ),
        decreases len - i,
    {
        let ghost b = value@.subrange(i as int, len as int);
        if add_mode && len - i >= 8 && read_u64_be(value, i) == 0 {
            assert(u64_from_be(b) == u64_from_be(value@.subrange(i as int, len as int)));
            assert(b.subrange(8, b.len() as int) =~= value@.subrange(i + 8, len as int));
            add_mode = false;
            i = i + 8;
        } else if len - i < 16 {
            assert(decode_body(b, add_mode) is None);
            return Err(CompressorError::CorruptRecord);
        } else {
            let ssk = read_u64_be(value, i);
            let sei = read_u64_be(value, i + 8);
            assert(value@.subrange(i + 8, len as int).subrange(0, 8) =~= b.subrange(8, 16).subrange(0, 8));
            assert(u64_from_be(value@.subrange(i + 8, len as int)) == u64_from_be(b.subrange(8, 16)));
            let c = compress_state_event(ssk, sei);
            assert(c == cse_from_be(b));
            assert(b.subrange(16, b.len() as int) =~= value@.subrange(i + 16, len as int));
            let ghost rest = decode_body(value@.subrange(i + 16, len as int), add_mode);
            let ghost a0 = added@;
            let ghost r0 = removed@;
            if add_mode {
                added.insert(c);
            } else {
                removed.insert(c);
            }
            proof {
                match rest {
                    Some(p) => {
                        if add_mode {
                            assert(a0.union(set![c].union(p.0)) =~= added@.union(p.0));
                            assert(r0.union(Set::<u128>::empty().union(p.1)) =~= removed@.union(p.1));
                        } else {
                            assert(a0.union(Set::<u128>::empty().union(p.0)) =~= added@.union(p.0));
                            assert(r0.union(set![c].union(p.1)) =~= removed@.union(p.1));
                        }
                    },
                    None => {},
                }
            }
            i = i + 16;
        }
    }
    assert(value@.subrange(i as int, len as int) =~= Seq::<u8>::empty());
    assert(added@.union(Set::empty()) =~= added@);
    assert(removed@.union(Set::empty()) =~= removed@);
    Ok(StateDiff { parent, added, removed })
}

} // verus!
