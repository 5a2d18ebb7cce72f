//! Putting solved tasks back into the order in which they were submitted,
//! whatever order the workers finished them in.
use vstd::prelude::*;
use vstd::set_lib::{lemma_int_range, lemma_len_subset, set_int_range};
use crate::solver::SolveError;

verus! {

/// What solving one task gives: the tiles' `(col, row)` coordinates, or why
/// there are none.
pub type Outcome = Result<Vec<(usize, usize)>, SolveError>;

/// The task indices that a list of finished outcomes is tagged with.
pub open spec fn tags(done: Seq<(usize, Outcome)>) -> Seq<usize> {
    done.map_values(|p: (usize, Outcome)| p.0)
}

/// `t` names each index of `0 .. n` exactly once.
pub open spec fn is_index_permutation(t: Seq<usize>, n: int) -> bool {
    &&& t.len() == n
    &&& forall|j: int| 0 <= j < t.len() ==> #[trigger] t[j] < n
    &&& forall|j1: int, j2: int|
        0 <= j1 < t.len() && 0 <= j2 < t.len() && j1 != j2 ==> #[trigger] t[j1] != #[trigger] t[j2]
}

/// Orders the outcomes of `n` tasks, each tagged with its task's index, by
/// that index. Gives `None` exactly when the tags are not `0 .. n`, each
/// once.
#[verifier::loop_isolation(false)]
pub fn in_task_order(n: usize, finished: Vec<(usize, Outcome)>) -> (r: Option<Vec<Outcome>>)
    ensures
        r is Some <==> is_index_permutation(tags(finished@), n as int),
        r is Some ==> {
            let v = r->Some_0;
            &&& v@.len() == n
            &&& forall|j: int|
                0 <= j < finished@.len() ==> v@[#[trigger] finished@[j].0 as int] == finished@[j].1
        },
{
    let ghost d0 = finished@;
    let ghost t0 = tags(d0);
    assert(forall|j: int| 0 <= j < d0.len() ==> #[trigger] t0[j] == d0[j].0);
    if finished.len() != n {
        return None;
    }
    let mut done = finished;
    let mut slots: Vec<Option<Outcome>> = Vec::new();
    let mut k: usize = 0;
    while k < n
        invariant
            k <= n,
            slots@.len() == k,
            forall|i: int| 0 <= i < k ==> #[trigger] slots@[i] is None,
        decreases n - k,
    {
        slots.push(None);
        k += 1;
    }
    let ghost mut owner: Seq<int> = Seq::new(n as nat, |i: int| 0);
    assert(d0.take(n as int) =~= d0);
    while done.len() > 0
        invariant
            d0.len() == n,
            t0.len() == n,
            forall|j: int| 0 <= j < n ==> #[trigger] t0[j] == d0[j].0,
            done@.len() <= n,
            done@ == d0.take(done@.len() as int),
            slots@.len() == n,
            owner.len() == n,
            forall|i: int| 0 <= i < n && #[trigger] slots@[i] is Some ==> {
                &&& done@.len() <= owner[i] < n
                &&& d0[owner[i]].0 == i
                &&& slots@[i]->Some_0 == d0[owner[i]].1
            },
            forall|j: int|
                done@.len() <= j < n ==> #[trigger] d0[j].0 < n && slots@[d0[j].0 as int] is Some
                    && owner[d0[j].0 as int] == j,
        decreases done@.len(),
    {
        let ghost len = done@.len() as int;
        assert(done@[len - 1] == d0[len - 1]);
        let p = done.pop().unwrap();
        assert(p == d0[len - 1]);
        assert(done@ =~= d0.take(len - 1));
        let (i, o) = p;
        if i >= n {
            assert(t0[len - 1] == i);
            assert(!is_index_permutation(t0, n as int));
            return None;
        }
        if slots[i].is_some() {
            assert(t0[len - 1] == t0[owner[i as int]]);
            assert(len - 1 != owner[i as int]);
            assert(!is_index_permutation(t0, n as int));
            return None;
        }
        slots.set(i, Some(o));
        proof {
            owner = owner.update(i as int, len - 1);
        }
    }
    proof {
        assert forall|j1: int, j2: int|
            0 <= j1 < t0.len() && 0 <= j2 < t0.len() && j1 != j2 implies #[trigger] t0[j1]
            != #[trigger] t0[j2] by {
            assert(owner[d0[j1].0 as int] == j1);
            assert(owner[d0[j2].0 as int] == j2);
        }
        assert(is_index_permutation(t0, n as int));
    }
    let ghost full = slots@;
    let mut out: Vec<Outcome> = Vec::new();
    let mut k: usize = 0;
    while k < n
        invariant
            k <= n,
            full.len() == n,
            d0.len() == n,
            is_index_permutation(t0, n as int),
            forall|j: int|
                0 <= j < n ==> #[trigger] t0[j] == d0[j].0 && full[d0[j].0 as int] is Some,
            slots@ == full.subrange(k as int, n as int),
            out@.len() == k,
            forall|i: int| 0 <= i < k ==> full[i] == Some(#[trigger] out@[i]),
        decreases n - k,
    {
        assert(slots@[0] == full[k as int]);
        let s = slots.remove(0);
        match s {
            Some(o) => {
                out.push(o);
            },
            None => {
                proof {
                    lemma_permutation_covers(t0, n as int, k as int);
                    let j = choose|j: int| 0 <= j < t0.len() && t0[j] == k;
                    assert(d0[j].0 == k);
                }
                return None;
            },
        }
        k += 1;
        assert(slots@ =~= full.subrange(k as int, n as int));
    }
    proof {
        assert forall|j: int| 0 <= j < d0.len() implies out@[#[trigger] d0[j].0 as int]
            == d0[j].1 by {
            assert(full[d0[j].0 as int] is Some);
        }
    }
    Some(out)
}

/// Indices `0 .. n`, named once each by `t`, are all named.
proof fn lemma_permutation_covers(t: Seq<usize>, n: int, k: int)
    requires
        is_index_permutation(t, n),
        0 <= k < n,
    ensures
        exists|j: int| 0 <= j < t.len() && t[j] == k,
{
    if !exists|j: int| 0 <= j < t.len() && t[j] == k {
        let ti = t.map_values(|x: usize| x as int);
        assert(ti.no_duplicates()) by {
            assert forall|a: int, b: int| 0 <= a < ti.len() && 0 <= b < ti.len() && a != b implies ti[a]
                != ti[b] by {
                assert(t[a] != t[b]);
            }
        }
        ti.unique_seq_to_set();
        let range = set_int_range(0, n).remove(k);
        lemma_int_range(0, n);
        assert forall|x: int| ti.to_set().contains(x) implies range.contains(x) by {
            let j = choose|j: int| 0 <= j < ti.len() && ti[j] == x;
            assert(t[j] < n);
        }
        lemma_len_subset(ti.to_set(), range);
    }
}

} // verus!
