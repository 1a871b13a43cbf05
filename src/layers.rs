use std::collections::HashSet;
use vstd::prelude::*;

use crate::codec::{CompressorError, DiffModel, StateDiff};
use crate::stateset::{copy_set, set_elements};

verus! {

broadcast use vstd::std_specs::hash::group_hash_axioms;

/// One layer of a materialized stack: its short state hash, the full state at
/// that layer, and the layer's own added and removed events.
pub struct ShortStateInfo {
    pub shortstatehash: u64,
    pub full_state: HashSet<u128>,
    pub added: HashSet<u128>,
    pub removed: HashSet<u128>,
}

/// The mathematical content of a `ShortStateInfo`.
pub struct InfoModel {
    pub ssh: u64,
    pub full: Set<u128>,
    pub added: Set<u128>,
    pub removed: Set<u128>,
}

impl View for ShortStateInfo {
    type V = InfoModel;

    open spec fn view(&self) -> InfoModel {
        InfoModel {
            ssh: self.shortstatehash,
            full: self.full_state@,
            added: self.added@,
            removed: self.removed@,
        }
    }
}

impl ShortStateInfo {
    /// A copy of this layer.
    pub fn duplicate(&self) -> (r: ShortStateInfo)
        ensures
            r@ == self@,
    {
        ShortStateInfo {
            shortstatehash: self.shortstatehash,
            full_state: copy_set(&self.full_state),
            added: copy_set(&self.added),
            removed: copy_set(&self.removed),
        }
    }
}

impl Clone for ShortStateInfo {
    fn clone(&self) -> Self {
        self.duplicate()
    }
}

/// The model of a stack of layers, root first.
pub open spec fn stack_view(s: Seq<ShortStateInfo>) -> Seq<InfoModel> {
    s.map_values(|i: ShortStateInfo| i@)
}

/// A copy of a stack of layers.
pub fn clone_stack(v: &Vec<ShortStateInfo>) -> (r: Vec<ShortStateInfo>)
    ensures
        stack_view(r@) == stack_view(v@),
{
    let mut r: Vec<ShortStateInfo> = Vec::new();
    for i in 0..v.len()
        invariant
            r@.len() == i,
            forall|j: int| 0 <= j < i ==> #[trigger] r@[j]@ == v@[j]@,
    {
        r.push(v[i].duplicate());
    }
    assert(stack_view(r@) =~= stack_view(v@));
    r
}

/// The state after a layer adds `a` to `f` and then removes `r`.
pub open spec fn apply(f: Set<u128>, a: Set<u128>, r: Set<u128>) -> Set<u128> {
    f.union(a).difference(r)
}

/// The state `full` with `added` added and then `removed` removed.
pub fn apply_change(full: &HashSet<u128>, added: &HashSet<u128>, removed: &HashSet<u128>) -> (r:
    HashSet<u128>)
    ensures
        r@ == apply(full@, added@, removed@),
{
    let mut r = copy_set(full);
    let fresh = set_elements(added);
    for i in 0..fresh.len()
        invariant
            r@ == full@.union(fresh@.take(i as int).to_set()),
    {
        r.insert(fresh[i]);
        proof {
            assert(fresh@.take(i as int + 1) =~= fresh@.take(i as int).push(fresh@[i as int]));
            fresh@.take(i as int).lemma_push_to_set_commute(fresh@[i as int]);
        }
        assert(r@ =~= full@.union(fresh@.take(i as int + 1).to_set()));
    }
    assert(fresh@.take(fresh@.len() as int) =~= fresh@);
    let ghost mid = r@;
    let gone = set_elements(removed);
    for i in 0..gone.len()
        invariant
            r@ == mid.difference(gone@.take(i as int).to_set()),
    {
        r.remove(&gone[i]);
        proof {
            assert(gone@.take(i as int + 1) =~= gone@.take(i as int).push(gone@[i as int]));
            gone@.take(i as int).lemma_push_to_set_commute(gone@[i as int]);
        }
        assert(r@ =~= mid.difference(gone@.take(i as int + 1).to_set()));
    }
    assert(gone@.take(gone@.len() as int) =~= gone@);
    r
}

/// What a parent layer adds once a child's change `(a, r)` is folded into its
/// own change `(pa, pr)`: each removal first cancels a parent addition or joins
/// the parent's removals, then each addition cancels a removal or joins the
/// additions.
pub open spec fn fold_added(pa: Set<u128>, pr: Set<u128>, a: Set<u128>, r: Set<u128>) -> Set<u128> {
    pa.difference(r).union(a.difference(pr.union(r.difference(pa))))
}

/// What a parent layer removes once a child's change `(a, r)` is folded into it.
pub open spec fn fold_removed(pa: Set<u128>, pr: Set<u128>, a: Set<u128>, r: Set<u128>) -> Set<
    u128,
> {
    pr.union(r.difference(pa)).difference(a)
}

/// Folds a change `(added, removed)` into a parent layer's change.
pub fn fold_diff(
    parent_added: &HashSet<u128>,
    parent_removed: &HashSet<u128>,
    added: &HashSet<u128>,
    removed: &HashSet<u128>,
) -> (r: (HashSet<u128>, HashSet<u128>))
    ensures
        r.0@ == fold_added(parent_added@, parent_removed@, added@, removed@),
        r.1@ == fold_removed(parent_added@, parent_removed@, added@, removed@),
{
    let ghost pa = parent_added@;
    let ghost pr = parent_removed@;
    let mut new_added = copy_set(parent_added);
    let mut new_removed = copy_set(parent_removed);
    let gone = set_elements(removed);
    for i in 0..gone.len()
        invariant
            gone@.no_duplicates(),
            new_added@ == pa.difference(gone@.take(i as int).to_set()),
            new_removed@ == pr.union(gone@.take(i as int).to_set().difference(pa)),
    {
        let x = gone[i];
        assert(!gone@.take(i as int).to_set().contains(x)) by {
            if gone@.take(i as int).to_set().contains(x) {
                let j = choose|j: int| 0 <= j < i && gone@.take(i as int)[j] == x;
                assert(gone@[j] == gone@[i as int]);
            }
        }
        if !new_added.remove(&x) {
            new_removed.insert(x);
        }
        proof {
            assert(gone@.take(i as int + 1) =~= gone@.take(i as int).push(x));
            gone@.take(i as int).lemma_push_to_set_commute(x);
        }
        assert(new_added@ =~= pa.difference(gone@.take(i as int + 1).to_set()));
        assert(new_removed@ =~= pr.union(gone@.take(i as int + 1).to_set().difference(pa)));
    }
    assert(gone@.take(gone@.len() as int) =~= gone@);
    let ghost mid_added = new_added@;
    let ghost mid_removed = new_removed@;
    let fresh = set_elements(added);
    for i in 0..fresh.len()
        invariant
            fresh@.no_duplicates(),
            new_removed@ == mid_removed.difference(fresh@.take(i as int).to_set()),
            new_added@ == mid_added.union(fresh@.take(i as int).to_set().difference(mid_removed)),
    {
        let x = fresh[i];
        assert(!fresh@.take(i as int).to_set().contains(x)) by {
            if fresh@.take(i as int).to_set().contains(x) {
                let j = choose|j: int| 0 <= j < i && fresh@.take(i as int)[j] == x;
                assert(fresh@[j] == fresh@[i as int]);
            }
        }
        if !new_removed.remove(&x) {
            new_added.insert(x);
        }
        proof {
            assert(fresh@.take(i as int + 1) =~= fresh@.take(i as int).push(x));
            fresh@.take(i as int).lemma_push_to_set_commute(x);
        }
        assert(new_removed@ =~= mid_removed.difference(fresh@.take(i as int + 1).to_set()));
        assert(new_added@ =~= mid_added.union(
            fresh@.take(i as int + 1).to_set().difference(mid_removed),
        ));
    }
    assert(fresh@.take(fresh@.len() as int) =~= fresh@);
    assert(new_added@ =~= fold_added(pa, pr, added@, removed@));
    assert(new_removed@ =~= fold_removed(pa, pr, added@, removed@));
    (new_added, new_removed)
}

/// Folding `(a, r)` into `(pa, pr)`: where neither change both adds and removes
/// an event, the fold is `(pa \ r) ∪ (a \ pr)` added and `(pr \ a) ∪ (r \ pa)`
/// removed, and it adds and removes no event both. Where, besides, `(pa, pr)`
/// is a clean change of a state `f` (it adds nothing that `f` holds and removes
/// only what `f` holds), applying the fold to `f` gives the state that applying
/// `(pa, pr)` and then `(a, r)` gives.
pub proof fn lemma_fold_correct(
    f: Set<u128>,
    pa: Set<u128>,
    pr: Set<u128>,
    a: Set<u128>,
    r: Set<u128>,
)
    requires
        pa.disjoint(pr),
        a.disjoint(r),
    ensures
        fold_added(pa, pr, a, r) == pa.difference(r).union(a.difference(pr)),
        fold_removed(pa, pr, a, r) == pr.difference(a).union(r.difference(pa)),
        fold_added(pa, pr, a, r).disjoint(fold_removed(pa, pr, a, r)),
        pa.disjoint(f) && pr.subset_of(f) ==> apply(
            f,
            fold_added(pa, pr, a, r),
            fold_removed(pa, pr, a, r),
        ) == apply(apply(f, pa, pr), a, r),
{
    assert(fold_added(pa, pr, a, r) =~= pa.difference(r).union(a.difference(pr)));
    assert(fold_removed(pa, pr, a, r) =~= pr.difference(a).union(r.difference(pa)));
    if pa.disjoint(f) && pr.subset_of(f) {
        assert(apply(f, fold_added(pa, pr, a, r), fold_removed(pa, pr, a, r)) =~= apply(
            apply(f, pa, pr),
            a,
            r,
        ));
    }
}

/// The decision of the layer engine for the change `(a, r)` on top of `stack`,
/// `dts` being the size of the change that the layer above contributed; `None`
/// where a size computation overflows.
pub open spec fn engine(a: Set<u128>, r: Set<u128>, dts: int, stack: Seq<InfoModel>) -> Option<
    DiffModel,
>
    decreases stack.len(),
{
    let d = (a.len() + r.len()) as int;
    if d > usize::MAX {
        None
    } else if stack.len() > 3 {
        let p = stack.last();
        engine(
            fold_added(p.added, p.removed, a, r),
            fold_removed(p.added, p.removed, a, r),
            d,
            stack.drop_last(),
        )
    } else if stack.len() == 0 {
        Some(DiffModel { parent: None, added: a, removed: r })
    } else {
        let p = stack.last();
        let pd = (p.added.len() + p.removed.len()) as int;
        if pd > usize::MAX || d * d > usize::MAX || 2 * dts > usize::MAX || 2 * dts * pd
            > usize::MAX {
            None
        } else if d * d >= 2 * dts * pd {
            engine(
                fold_added(p.added, p.removed, a, r),
                fold_removed(p.added, p.removed, a, r),
                d,
                stack.drop_last(),
            )
        } else {
            Some(DiffModel { parent: Some(p.ssh), added: a, removed: r })
        }
    }
}

/// The full state below layer `i`: the full state of layer `i - 1`, or nothing
/// below the root.
pub open spec fn below(s: Seq<InfoModel>, i: int) -> Set<u128> {
    if i == 0 {
        Set::empty()
    } else {
        s[i - 1].full
    }
}

/// A change `(a, r)` of the state `f` that adds only what `f` lacks and
/// removes only what `f` holds.
pub open spec fn clean_change(f: Set<u128>, a: Set<u128>, r: Set<u128>) -> bool {
    a.disjoint(f) && r.subset_of(f)
}

/// Every layer of the stack is a clean change of the layer below it, and its
/// full state is that change applied to the state below. The root therefore
/// removes nothing and its full state is what it adds.
pub open spec fn stack_ok(s: Seq<InfoModel>) -> bool {
    forall|i: int|
        0 <= i < s.len() ==> clean_change(below(s, i), #[trigger] s[i].added, s[i].removed)
            && s[i].full == apply(below(s, i), s[i].added, s[i].removed)
}

/// The record `d` stands directly on the `m`-th layer of the stack (on nothing
/// when `m` is zero), so that its own chain has `m + 1` layers.
pub open spec fn lands_on(d: DiffModel, s: Seq<InfoModel>, m: int) -> bool {
    &&& 0 <= m <= 3
    &&& m <= s.len()
    &&& if m == 0 {
        d.parent is None
    } else {
        d.parent == Some(s[m - 1].ssh)
    }
}

proof fn lemma_stack_prefix(s: Seq<InfoModel>)
    requires
        stack_ok(s),
        s.len() > 0,
    ensures
        stack_ok(s.drop_last()),
{
    let t = s.drop_last();
    assert forall|i: int| 0 <= i < t.len() implies clean_change(
        below(t, i),
        #[trigger] t[i].added,
        t[i].removed,
    ) && t[i].full == apply(below(t, i), t[i].added, t[i].removed) by {
        assert(t[i] == s[i]);
        assert(below(t, i) == below(s, i));
    }
}

/// Where the engine writes a record, that record stands on one of the three
/// lowest layers of the stack or on nothing, so that the chain of the new
/// state has at most four layers. Where the stack is well formed and the
/// change is clean against its top, the record is a clean change of the state
/// it stands on and materializes to the state that the change gives on top of
/// the stack.
pub proof fn lemma_engine_places(a: Set<u128>, r: Set<u128>, dts: int, s: Seq<InfoModel>)
    requires
        engine(a, r, dts, s) is Some,
    ensures
        exists|m: int|
            lands_on(engine(a, r, dts, s)->Some_0, s, m) && (stack_ok(s) && clean_change(
                below(s, s.len() as int),
                a,
                r,
            ) ==> clean_change(
                below(s, m),
                engine(a, r, dts, s)->Some_0.added,
                engine(a, r, dts, s)->Some_0.removed,
            ) && apply(
                below(s, m),
                engine(a, r, dts, s)->Some_0.added,
                engine(a, r, dts, s)->Some_0.removed,
            ) == apply(below(s, s.len() as int), a, r)),
    decreases s.len(),
{
    let d = engine(a, r, dts, s)->Some_0;
    let n = s.len() as int;
    if n == 0 {
        assert(lands_on(d, s, 0));
    } else {
        let p = s.last();
        let na = fold_added(p.added, p.removed, a, r);
        let nr = fold_removed(p.added, p.removed, a, r);
        let t = s.drop_last();
        let pd = (p.added.len() + p.removed.len()) as int;
        let sz = (a.len() + r.len()) as int;
        let folds = n > 3 || sz * sz >= 2 * dts * pd;
        if folds {
            assert(engine(a, r, dts, s) == engine(na, nr, sz, t));
            lemma_engine_places(na, nr, sz, t);
            let m = choose|m: int|
                lands_on(engine(na, nr, sz, t)->Some_0, t, m) && (stack_ok(t) && clean_change(
                    below(t, t.len() as int),
                    na,
                    nr,
                ) ==> clean_change(
                    below(t, m),
                    engine(na, nr, sz, t)->Some_0.added,
                    engine(na, nr, sz, t)->Some_0.removed,
                ) && apply(
                    below(t, m),
                    engine(na, nr, sz, t)->Some_0.added,
                    engine(na, nr, sz, t)->Some_0.removed,
                ) == apply(below(t, t.len() as int), na, nr));
            assert(below(t, m) == below(s, m));
            if m > 0 {
                assert(t[m - 1] == s[m - 1]);
            }
            assert(lands_on(d, s, m));
            if stack_ok(s) && clean_change(below(s, n), a, r) {
                lemma_stack_prefix(s);
                let f = below(s, n - 1);
                assert(s[n - 1] == p);
                assert(clean_change(f, p.added, p.removed));
                assert(p.full == apply(f, p.added, p.removed));
                assert(below(t, t.len() as int) == f);
                lemma_fold_correct(f, p.added, p.removed, a, r);
                assert(clean_change(f, na, nr));
            }
        } else {
            assert(lands_on(d, s, n));
        }
    }
}

/// Decides where the change `(statediffnew, statediffremoved)` on top of
/// `parent_states` is stored and returns the record to write: while the stack
/// holds more than three layers, or while the change is too large against its
/// parent layer (its squared size at least twice the sibling size times the
/// parent layer's size), it is folded into the top layer and the decision
/// repeats one layer down; otherwise it becomes a new layer on top.
pub fn plan_state_diff(
    statediffnew: HashSet<u128>,
    statediffremoved: HashSet<u128>,
    diff_to_sibling: usize,
    parent_states: Vec<ShortStateInfo>,
) -> (r: Result<StateDiff, CompressorError>)
    ensures
        match engine(
            statediffnew@,
            statediffremoved@,
            diff_to_sibling as int,
            stack_view(parent_states@),
        ) {
            Some(d) => r matches Ok(x) && x@ == d,
            None => r == Err::<StateDiff, CompressorError>(CompressorError::ArithmeticOverflow),
        },
        r matches Ok(x) ==> exists|m: int| lands_on(x@, stack_view(parent_states@), m),
{
    let ghost goal = engine(
        statediffnew@,
        statediffremoved@,
        diff_to_sibling as int,
        stack_view(parent_states@),
    );
    proof {
        if goal is Some {
            lemma_engine_places(
                statediffnew@,
                statediffremoved@,
                diff_to_sibling as int,
                stack_view(parent_states@),
            );
        }
    }
    let mut added = statediffnew;
    let mut removed = statediffremoved;
    let mut sibling = diff_to_sibling;
    let mut stack = parent_states;
    loop
        invariant
            goal == engine(
                statediffnew@,
                statediffremoved@,
                diff_to_sibling as int,
                stack_view(parent_states@),
            ),
            goal == engine(added@, removed@, sibling as int, stack_view(stack@)),
            goal is Some ==> exists|m: int|
                lands_on(goal->Some_0, stack_view(parent_states@), m),
        decreases stack.len(),
    {
        let ghost before = stack@;
        assert(added@.len() == added.len() && removed@.len() == removed.len());
        assert(stack_view(stack@).len() == stack@.len());
        let diffsum = match added.len().checked_add(removed.len()) {
            Some(v) => v,
            None => {
                return Err(CompressorError::ArithmeticOverflow);
            },
        };
        let depth = stack.len();
        if depth == 0 {
            return Ok(StateDiff { parent: None, added, removed });
        }
        let parent = match stack.pop() {
            Some(p) => p,
            None => {
                return Err(CompressorError::ArithmeticOverflow);
            },
        };
        assert(stack_view(stack@) =~= stack_view(before).drop_last());
        assert(stack_view(before).last() == parent@);
        let fold = if depth > 3 {
            true
        } else {
            let parent_diff = match parent.added.len().checked_add(parent.removed.len()) {
                Some(v) => v,
                None => {
                    return Err(CompressorError::ArithmeticOverflow);
                },
            };
            let square = match diffsum.checked_mul(diffsum) {
                Some(v) => v,
                None => {
                    return Err(CompressorError::ArithmeticOverflow);
                },
            };
            let twice = match 2usize.checked_mul(sibling) {
                Some(v) => v,
                None => {
                    return Err(CompressorError::ArithmeticOverflow);
                },
            };
            let bound = match twice.checked_mul(parent_diff) {
                Some(v) => v,
                None => {
                    return Err(CompressorError::ArithmeticOverflow);
                },
            };
            square >= bound
        };
        if !fold {
            return Ok(StateDiff { parent: Some(parent.shortstatehash), added, removed });
        }
        let (new_added, new_removed) = fold_diff(&parent.added, &parent.removed, &added, &removed);
        added = new_added;
        removed = new_removed;
        sibling = diffsum;
    }
}

} // verus!
