//! Keyed state repair for a tab body host: the plan that carries each
//! retained child state to the position its key moved to.

use vstd::prelude::*;

verus! {

/// The first old position at or after `from` whose key equals `key` and
/// that `prefix` has not yet claimed.
pub open spec fn first_unclaimed<K>(old: Seq<K>, prefix: Seq<Option<usize>>, key: K, from: int) -> Option<
    usize,
>
    decreases old.len() - from,
{
    if from < 0 || from >= old.len() || from > usize::MAX {
        None
    } else if old[from] == key && !prefix.contains(Some(from as usize)) {
        Some(from as usize)
    } else {
        first_unclaimed(old, prefix, key, from + 1)
    }
}

/// The pairing plan: new position `j` takes the first old position with an
/// equal key that no earlier new position took, or `None`.
pub open spec fn spec_pairing_plan<K>(old: Seq<K>, new: Seq<K>) -> Seq<Option<usize>>
    decreases new.len(),
{
    if new.len() == 0 {
        Seq::empty()
    } else {
        let prefix = spec_pairing_plan(old, new.drop_last());
        prefix.push(first_unclaimed(old, prefix, new.last(), 0))
    }
}

proof fn lemma_first_unclaimed<K>(old: Seq<K>, prefix: Seq<Option<usize>>, key: K, from: int)
    requires
        0 <= from,
        old.len() <= usize::MAX + 1,
    ensures
        match first_unclaimed(old, prefix, key, from) {
            Some(i) => {
                &&& from <= i < old.len()
                &&& old[i as int] == key
                &&& !prefix.contains(Some(i))
                &&& forall|p: int| from <= p < i && old[p] == key ==> prefix.contains(Some(p as usize))
            },
            None => forall|p: int| from <= p < old.len() && old[p] == key ==> prefix.contains(Some(p as usize)),
        },
    decreases old.len() - from,
{
    if from < old.len() {
        lemma_first_unclaimed(old, prefix, key, from + 1);
        if !(old[from] == key && !prefix.contains(Some(from as usize))) {
            match first_unclaimed(old, prefix, key, from + 1) {
                Some(i) => {
                    assert forall|p: int| from <= p < i && old[p] == key implies prefix.contains(Some(p as usize)) by {
                        if p > from {
                            assert(from + 1 <= p < i);
                        }
                    }
                },
                None => {
                    assert forall|p: int| from <= p < old.len() && old[p] == key implies prefix.contains(
                        Some(p as usize),
                    ) by {
                        if p > from {
                            assert(from + 1 <= p < old.len());
                        }
                    }
                },
            }
        }
    }
}

/// Each plan entry names a matching, not yet claimed old position; no old
/// position is claimed twice.
proof fn lemma_plan_shape<K>(old: Seq<K>, new: Seq<K>)
    requires
        old.len() <= usize::MAX + 1,
    ensures
        spec_pairing_plan(old, new).len() == new.len(),
        forall|j: int|
            0 <= j < new.len() ==> match #[trigger] spec_pairing_plan(old, new)[j] {
                Some(i) => i < old.len() && old[i as int] == new[j],
                None => true,
            },
        forall|j1: int, j2: int|
            0 <= j1 < new.len() && 0 <= j2 < new.len() && j1 != j2 && (#[trigger] spec_pairing_plan(
                old,
                new,
            )[j1]) is Some ==> spec_pairing_plan(old, new)[j1] != #[trigger] spec_pairing_plan(old, new)[j2],
    decreases new.len(),
{
    if new.len() > 0 {
        let prefix = spec_pairing_plan(old, new.drop_last());
        lemma_plan_shape(old, new.drop_last());
        lemma_first_unclaimed(old, prefix, new.last(), 0);
        let plan = spec_pairing_plan(old, new);
        let n = new.len() - 1;
        assert(plan == prefix.push(first_unclaimed(old, prefix, new.last(), 0)));
        assert forall|j: int| 0 <= j < new.len() implies match #[trigger] plan[j] {
            Some(i) => i < old.len() && old[i as int] == new[j],
            None => true,
        } by {
            if j < n {
                assert(plan[j] == prefix[j]);
                assert(new.drop_last()[j] == new[j]);
            }
        }
        assert forall|j1: int, j2: int|
            0 <= j1 < new.len() && 0 <= j2 < new.len() && j1 != j2 && (#[trigger] plan[j1]) is Some implies plan[j1]
            != #[trigger] plan[j2] by {
            if j1 == n {
                assert(plan[j2] == prefix[j2]);
                if plan[j1] == plan[j2] {
                    assert(prefix.contains(plan[j1]));
                }
            } else if j2 == n {
                assert(plan[j1] == prefix[j1]);
                if plan[j1] == plan[j2] {
                    assert(prefix.contains(plan[j2]));
                }
            } else {
                assert(plan[j1] == prefix[j1]);
                assert(plan[j2] == prefix[j2]);
            }
        }
    }
}

/// Key equality for key types whose `==` is plain value equality.
fn same_key<K: PartialEq>(x: &K, y: &K) -> (r: bool)
    requires
        vstd::laws_eq::obeys_concrete_eq::<K>(),
    ensures
        r == (*x == *y),
{
    proof {
        reveal(vstd::laws_eq::obeys_concrete_eq);
    }
    *x == *y
}

/// The state-repair plan for one keyed child diff: for each new position,
/// the old position whose key matches — `None` for a key with no prior
/// state. Every old position is claimed at most once, so duplicate keys
/// degrade to positional pairing among themselves; old positions left
/// unclaimed are dropped by the caller.
pub fn pairing_plan<K: PartialEq>(old: &[K], new: &[K]) -> (r: Vec<Option<usize>>)
    requires
        vstd::laws_eq::obeys_concrete_eq::<K>(),
    ensures
        r@ == spec_pairing_plan(old@, new@),
        r@.len() == new@.len(),
        forall|j: int|
            0 <= j < r@.len() ==> match #[trigger] r@[j] {
                Some(i) => i < old@.len() && old@[i as int] == new@[j],
                None => true,
            },
        forall|j1: int, j2: int|
            0 <= j1 < r@.len() && 0 <= j2 < r@.len() && j1 != j2 && (#[trigger] r@[j1]) is Some ==> r@[j1]
                != #[trigger] r@[j2],
        forall|j: int|
            0 <= j < r@.len() ==> match #[trigger] r@[j] {
                Some(i) => forall|q: int|
                    0 <= q < i && old@[q] == new@[j] ==> r@.take(j).contains(Some(q as usize)),
                None => forall|q: int|
                    0 <= q < old@.len() && old@[q] == new@[j] ==> r@.take(j).contains(Some(q as usize)),
            },
{
    let mut claimed: Vec<bool> = Vec::new();
    let mut z: usize = 0;
    while z < old.len()
        invariant
            z <= old@.len(),
            claimed@.len() == z,
            forall|p: int| 0 <= p < z ==> !claimed@[p],
        decreases old@.len() - z,
    {
        claimed.push(false);
        z += 1;
    }
    let mut plan: Vec<Option<usize>> = Vec::new();
    let mut j: usize = 0;
    while j < new.len()
        invariant
            j <= new@.len(),
            claimed@.len() == old@.len(),
            plan@ == spec_pairing_plan(old@, new@.take(j as int)),
            forall|p: int| 0 <= p < old@.len() ==> (claimed@[p] <==> plan@.contains(Some(p as usize))),
            vstd::laws_eq::obeys_concrete_eq::<K>(),
        decreases new@.len() - j,
    {
        let ghost prefix = plan@;
        let mut i: usize = 0;
        let mut matched: Option<usize> = None;
        while i < old.len()
            invariant
                i <= old@.len(),
                j < new@.len(),
                claimed@.len() == old@.len(),
                plan@ == prefix,
                forall|p: int| 0 <= p < old@.len() ==> (claimed@[p] <==> prefix.contains(Some(p as usize))),
                first_unclaimed(old@, prefix, new@[j as int], 0) == match matched {
                    Some(m) => Some(m),
                    None => first_unclaimed(old@, prefix, new@[j as int], i as int),
                },
                matched is Some ==> i == old@.len(),
                vstd::laws_eq::obeys_concrete_eq::<K>(),
            decreases old@.len() - i,
        {
            if !claimed[i] && same_key(&old[i], &new[j]) {
                matched = Some(i);
                i = old.len();
            } else {
                i += 1;
            }
        }
        proof {
            if matched is None {
                assert(first_unclaimed(old@, prefix, new@[j as int], i as int) == None::<usize>);
            }
            assert(new@.take(j + 1).drop_last() =~= new@.take(j as int));
            assert(new@.take(j + 1).last() == new@[j as int]);
            lemma_first_unclaimed(old@, prefix, new@[j as int], 0);
        }
        if let Some(m) = matched {
            claimed.set(m, true);
        }
        plan.push(matched);
        proof {
            assert forall|p: int| 0 <= p < old@.len() implies (claimed@[p] <==> plan@.contains(Some(p as usize))) by {
                if plan@.contains(Some(p as usize)) {
                    let q = choose|q: int| 0 <= q < plan@.len() && plan@[q] == Some(p as usize);
                    if q < prefix.len() {
                        assert(prefix[q] == Some(p as usize));
                    }
                }
                if prefix.contains(Some(p as usize)) {
                    let q = choose|q: int| 0 <= q < prefix.len() && prefix[q] == Some(p as usize);
                    assert(plan@[q] == Some(p as usize));
                }
                if matched == Some(p as usize) {
                    assert(plan@[prefix.len() as int] == Some(p as usize));
                }
            }
        }
        j += 1;
    }
    proof {
        assert(new@.take(j as int) =~= new@);
        lemma_plan_shape(old@, new@);
        lemma_pairing_plan_least_unclaimed(old@, new@);
    }
    plan
}

proof fn lemma_plan_take<K>(old: Seq<K>, new: Seq<K>, n: int)
    requires
        0 <= n <= new.len(),
    ensures
        spec_pairing_plan(old, new).len() == new.len(),
        spec_pairing_plan(old, new.take(n)) == spec_pairing_plan(old, new).take(n),
    decreases new.len(),
{
    if new.len() > 0 {
        lemma_plan_take(old, new.drop_last(), if n < new.len() { n } else { 0 });
    }
    if n == new.len() {
        assert(new.take(n) =~= new);
        assert(spec_pairing_plan(old, new).take(n) =~= spec_pairing_plan(old, new));
    } else {
        assert(new.drop_last().take(n) =~= new.take(n));
        assert(spec_pairing_plan(old, new).take(n) =~= spec_pairing_plan(old, new.drop_last()).take(n));
    }
}

/// The plan takes, for each new position in turn, the least old position
/// with an equal key that no earlier new position took, and `None` only
/// when every such position is taken; no old position is taken twice.
pub proof fn lemma_pairing_plan_least_unclaimed<K>(old: Seq<K>, new: Seq<K>)
    requires
        old.len() <= usize::MAX + 1,
    ensures
        spec_pairing_plan(old, new).len() == new.len(),
        forall|i: int|
            0 <= i < new.len() ==> match #[trigger] spec_pairing_plan(old, new)[i] {
                Some(j) => {
                    &&& j < old.len()
                    &&& old[j as int] == new[i]
                    &&& !spec_pairing_plan(old, new).take(i).contains(Some(j))
                    &&& forall|q: int|
                        0 <= q < j && old[q] == new[i] ==> spec_pairing_plan(old, new).take(i).contains(
                            Some(q as usize),
                        )
                },
                None => forall|q: int|
                    0 <= q < old.len() && old[q] == new[i] ==> spec_pairing_plan(old, new).take(i).contains(
                        Some(q as usize),
                    ),
            },
        forall|i1: int, i2: int|
            0 <= i1 < new.len() && 0 <= i2 < new.len() && i1 != i2 && (#[trigger] spec_pairing_plan(old, new)[i1]) is Some
                ==> spec_pairing_plan(old, new)[i1] != #[trigger] spec_pairing_plan(old, new)[i2],
{
    lemma_plan_shape(old, new);
    let plan = spec_pairing_plan(old, new);
    assert forall|i: int| 0 <= i < new.len() implies match #[trigger] plan[i] {
        Some(j) => {
            &&& j < old.len()
            &&& old[j as int] == new[i]
            &&& !plan.take(i).contains(Some(j))
            &&& forall|q: int| 0 <= q < j && old[q] == new[i] ==> plan.take(i).contains(Some(q as usize))
        },
        None => forall|q: int| 0 <= q < old.len() && old[q] == new[i] ==> plan.take(i).contains(Some(q as usize)),
    } by {
        lemma_plan_take(old, new, i + 1);
        lemma_plan_take(old, new, i);
        let upto = new.take(i + 1);
        assert(upto.drop_last() =~= new.take(i));
        assert(upto.last() == new[i]);
        assert(plan.take(i + 1)[i] == plan[i]);
        lemma_first_unclaimed(old, plan.take(i), new[i], 0);
    }
}

/// Identical key lists pair every position with itself, duplicates
/// included.
pub proof fn lemma_pairing_plan_identity<K>(keys: Seq<K>)
    requires
        keys.len() <= usize::MAX + 1,
    ensures
        spec_pairing_plan(keys, keys) == Seq::new(keys.len(), |j: int| Some(j as usize)),
{
    lemma_identity_prefix(keys, keys.len() as int);
    assert(keys.take(keys.len() as int) =~= keys);
}

proof fn lemma_identity_prefix<K>(keys: Seq<K>, n: int)
    requires
        0 <= n <= keys.len(),
        keys.len() <= usize::MAX + 1,
    ensures
        spec_pairing_plan(keys, keys.take(n)) == Seq::new(n as nat, |j: int| Some(j as usize)),
    decreases n,
{
    if n > 0 {
        lemma_identity_prefix(keys, n - 1);
        let prefix = spec_pairing_plan(keys, keys.take(n - 1));
        assert(keys.take(n).drop_last() =~= keys.take(n - 1));
        assert(keys.take(n).last() == keys[n - 1]);
        let key = keys[n - 1];
        assert forall|p: int| 0 <= p < n - 1 implies #[trigger] prefix.contains(Some(p as usize)) by {
            assert(prefix[p] == Some(p as usize));
        }
        lemma_first_unclaimed(keys, prefix, key, 0);
        assert(!prefix.contains(Some((n - 1) as usize))) by {
            if prefix.contains(Some((n - 1) as usize)) {
                let q = choose|q: int| 0 <= q < prefix.len() && prefix[q] == Some((n - 1) as usize);
                assert(prefix[q] == Some(q as usize));
            }
        }
        let f = first_unclaimed(keys, prefix, key, 0);
        assert(f == Some((n - 1) as usize)) by {
            match f {
                Some(i) => {
                    if i < n - 1 {
                        assert(prefix[i as int] == Some(i));
                        assert(prefix.contains(Some(i)));
                    }
                    if i > n - 1 {
                        assert(keys[n - 1] == key);
                    }
                },
                None => {
                    assert(keys[n - 1] == key);
                },
            }
        }
        assert(spec_pairing_plan(keys, keys.take(n)) =~= Seq::new(n as nat, |j: int| Some(j as usize)));
    } else {
        assert(keys.take(0) =~= Seq::<K>::empty());
        assert(spec_pairing_plan(keys, keys.take(n)) =~= Seq::new(n as nat, |j: int| Some(j as usize)));
    }
}

} // verus!
