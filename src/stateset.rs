use std::collections::HashSet;
use vstd::prelude::*;
use vstd::std_specs::iter::IteratorSpec;

verus! {

broadcast use vstd::std_specs::hash::group_hash_axioms;

/// Lists the members of a state set, each once, in the set's iteration order.
pub fn set_elements(s: &HashSet<u128>) -> (r: Vec<u128>)
    ensures
        r@.to_set() == s@,
        r@.no_duplicates(),
        r@.len() == s@.len(),
{
    let ghost keys = vstd::std_specs::hash::spec_hash_keys_iter(s).remaining();
    let mut v: Vec<u128> = Vec::new();
    for x in it: s.iter()
        invariant
            it.seq() == keys,
            keys.unref().to_set() == s@,
            keys.no_duplicates(),
            keys.len() == s@.len(),
            v@.len() == it.index(),
            forall|i: int| 0 <= i < it.index() ==> v@[i] == *it.seq()[i],
    {
        v.push(*x);
    }
    proof {
        assert(keys.unref() =~= v@);
    }
    v
}

/// The members of a state set form a finite set.
pub proof fn lemma_set_finite(s: &HashSet<u128>, v: Seq<u128>)
    requires
        v.to_set() == s@,
    ensures
        s@.finite(),
{
    vstd::seq_lib::seq_to_set_is_finite(v);
}

/// A new state set with the same members.
pub fn copy_set(s: &HashSet<u128>) -> (r: HashSet<u128>)
    ensures
        r@ == s@,
        r@.finite(),
{
    let v = set_elements(s);
    let mut r: HashSet<u128> = HashSet::new();
    for i in 0..v.len()
        invariant
            r@ == v@.take(i as int).to_set(),
    {
        r.insert(v[i]);
        assert(r@ =~= v@.take(i as int + 1).to_set()) by {
            assert(v@.take(i as int + 1) =~= v@.take(i as int).push(v@[i as int]));
            v@.take(i as int).lemma_push_to_set_commute(v@[i as int]);
        }
    }
    assert(v@.take(v@.len() as int) =~= v@);
    proof {
        lemma_set_finite(s, v@);
    }
    r
}

/// The members of `a` that are not members of `b`.
pub fn set_difference(a: &HashSet<u128>, b: &HashSet<u128>) -> (r: HashSet<u128>)
    ensures
        r@ == a@.difference(b@),
        r@.finite(),
{
    let v = set_elements(a);
    let mut r: HashSet<u128> = HashSet::new();
    for i in 0..v.len()
        invariant
            r@ == v@.take(i as int).to_set().difference(b@),
    {
        let x = v[i];
        if !b.contains(&x) {
            r.insert(x);
        }
        assert(r@ =~= v@.take(i as int + 1).to_set().difference(b@)) by {
            assert(v@.take(i as int + 1) =~= v@.take(i as int).push(x));
            v@.take(i as int).lemma_push_to_set_commute(x);
        }
    }
    assert(v@.take(v@.len() as int) =~= v@);
    proof {
        lemma_set_finite(a, v@);
    }
    r
}

/// Each member comes before every larger one.
pub open spec fn strictly_sorted(q: Seq<u128>) -> bool {
    forall|i: int, j: int| 0 <= i < j < q.len() ==> q[i] < q[j]
}

/// The members of a finite set listed in increasing order, which is also the
/// lexicographic order of their sixteen big-endian bytes.
pub open spec fn canonical_order(s: Set<u128>) -> Seq<u128> {
    choose|q: Seq<u128>| strictly_sorted(q) && q.to_set() == s
}

/// A set has one increasing listing: any two agree, and any one is the
/// canonical order.
pub proof fn lemma_sorted_unique(a: Seq<u128>, b: Seq<u128>)
    requires
        strictly_sorted(a),
        strictly_sorted(b),
        a.to_set() == b.to_set(),
    ensures
        a == b,
        a == canonical_order(a.to_set()),
    decreases a.len(),
{
    lemma_sorted_equal(a, b);
    let c = canonical_order(a.to_set());
    assert(strictly_sorted(a) && a.to_set() == a.to_set());
    lemma_sorted_equal(a, c);
}

proof fn lemma_sorted_equal(a: Seq<u128>, b: Seq<u128>)
    requires
        strictly_sorted(a),
        strictly_sorted(b),
        a.to_set() == b.to_set(),
    ensures
        a == b,
    decreases a.len(),
{
    if a.len() == 0 {
        if b.len() > 0 {
            assert(b.to_set().contains(b[0]));
        }
        assert(a =~= b);
    } else {
        assert(a.to_set().contains(a[0]));
        if b.len() == 0 {
            assert(false);
        }
        assert(b.to_set().contains(b[0]));
        let j = choose|j: int| 0 <= j < b.len() && b[j] == a[0];
        let k = choose|k: int| 0 <= k < a.len() && a[k] == b[0];
        assert(a[0] == b[0]);
        let a1 = a.drop_first();
        let b1 = b.drop_first();
        assert(a1.to_set() =~= b1.to_set()) by {
            assert forall|x: u128| a1.to_set().contains(x) implies b1.to_set().contains(x) by {
                let i = choose|i: int| 0 <= i < a1.len() && a1[i] == x;
                assert(a[i + 1] == x);
                assert(b.to_set().contains(x));
                let i2 = choose|i2: int| 0 <= i2 < b.len() && b[i2] == x;
                assert(i2 != 0);
                assert(b1[i2 - 1] == x);
            }
            assert forall|x: u128| b1.to_set().contains(x) implies a1.to_set().contains(x) by {
                let i = choose|i: int| 0 <= i < b1.len() && b1[i] == x;
                assert(b[i + 1] == x);
                assert(a.to_set().contains(x));
                let i2 = choose|i2: int| 0 <= i2 < a.len() && a[i2] == x;
                assert(i2 != 0);
                assert(a1[i2 - 1] == x);
            }
        }
        lemma_sorted_equal(a1, b1);
        assert(a =~= b) by {
            assert forall|i: int| 0 <= i < a.len() implies a[i] == b[i] by {
                if i > 0 {
                    assert(a1[i - 1] == b1[i - 1]);
                }
            }
        }
    }
}

/// Lists the members of a state set in increasing order.
pub fn sorted_elements(s: &HashSet<u128>) -> (r: Vec<u128>)
    ensures
        strictly_sorted(r@),
        r@.to_set() == s@,
        r@ == canonical_order(s@),
{
    let v = set_elements(s);
    let mut out: Vec<u128> = Vec::new();
    for i in 0..v.len()
        invariant
            v@.no_duplicates(),
            strictly_sorted(out@),
            out@.to_set() == v@.take(i as int).to_set(),
    {
        let x = v[i];
        assert(!out@.to_set().contains(x)) by {
            if v@.take(i as int).to_set().contains(x) {
                let j = choose|j: int| 0 <= j < i && v@.take(i as int)[j] == x;
                assert(v@[j] == v@[i as int]);
            }
        }
        let mut pos: usize = 0;
        while pos < out.len() && out[pos] < x
            invariant
                pos <= out@.len(),
                forall|j: int| 0 <= j < pos ==> out@[j] < x,
            decreases out@.len() - pos,
        {
            pos = pos + 1;
        }
        if pos < out.len() {
            assert(out@[pos as int] != x) by {
                assert(out@.to_set().contains(out@[pos as int]));
            }
        }
        let ghost before = out@;
        out.insert(pos, x);
        assert(out@ == before.insert(pos as int, x));
        assert forall|a: int, b: int| 0 <= a < b < out@.len() implies out@[a] < out@[b] by {
            if b < pos {
            } else if b == pos {
            } else if a < pos {
                assert(out@[b] == before[b - 1]);
                if pos < before.len() {
                    assert(before[pos as int] <= before[b - 1]);
                }
            } else if a == pos {
                assert(out@[b] == before[b - 1]);
                assert(before[pos as int] <= before[b - 1]);
            } else {
                assert(out@[a] == before[a - 1]);
                assert(out@[b] == before[b - 1]);
            }
        }
        assert(out@.to_set() =~= v@.take(i as int + 1).to_set()) by {
            assert(v@.take(i as int + 1) =~= v@.take(i as int).push(x));
            v@.take(i as int).lemma_push_to_set_commute(x);
            assert forall|y: u128| out@.to_set().contains(y) implies before.to_set().insert(x).contains(y) by {
                let j = choose|j: int| 0 <= j < out@.len() && out@[j] == y;
                if j < pos {
                    assert(before[j] == y);
                } else if j > pos {
                    assert(before[j - 1] == y);
                }
            }
            assert forall|y: u128| before.to_set().insert(x).contains(y) implies out@.to_set().contains(y) by {
                if y == x {
                    assert(out@[pos as int] == x);
                } else {
                    let j = choose|j: int| 0 <= j < before.len() && before[j] == y;
                    if j < pos {
                        assert(out@[j] == y);
                    } else {
                        assert(out@[j + 1] == y);
                    }
                }
            }
        }
    }
    assert(v@.take(v@.len() as int) =~= v@);
    proof {
        lemma_sorted_unique(out@, out@);
    }
    out
}

} // verus!
