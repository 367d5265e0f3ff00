//! Reachability along a relation.

use crate::collections::{in_order, is_listed, SortedMap, SortedSet};
use crate::order::Ordered;
use vstd::prelude::*;

verus! {

/// Whether each element of `path` leads to the next one.
pub open spec fn is_walk<A>(path: Seq<A>, step: spec_fn(A, A) -> bool) -> bool {
    forall|i: int| 0 <= i < path.len() - 1 ==> step(#[trigger] path[i], path[i + 1])
}

/// Whether some walk leads from an element of `start` to `goal`.
pub open spec fn reaches<A>(start: Set<A>, step: spec_fn(A, A) -> bool, goal: A) -> bool {
    exists|path: Seq<A>|
        path.len() > 0 && start.contains(path[0]) && path.last() == goal && #[trigger] is_walk(
            path,
            step,
        )
}

/// Everything that can be reached from `start`.
pub open spec fn reachable<A>(start: Set<A>, step: spec_fn(A, A) -> bool) -> Set<A> {
    Set::new(|goal: A| reaches(start, step, goal))
}

/// Whether no step leads out of `set`.
pub open spec fn closed_under<A>(set: Set<A>, step: spec_fn(A, A) -> bool) -> bool {
    forall|a: A, b: A| set.contains(a) && #[trigger] step(a, b) ==> set.contains(b)
}

/// What is reachable contains the start.
pub proof fn lemma_start_reachable<A>(start: Set<A>, step: spec_fn(A, A) -> bool)
    ensures
        start.subset_of(reachable(start, step)),
{
    assert forall|a: A| start.contains(a) implies reachable(start, step).contains(a) by {
        let path = seq![a];
        assert(is_walk(path, step));
        assert(path.last() == a);
    }
}

pub proof fn lemma_step_reachable<A>(start: Set<A>, step: spec_fn(A, A) -> bool, a: A, b: A)
    requires
        reachable(start, step).contains(a),
        step(a, b),
    ensures
        reachable(start, step).contains(b),
{
    let path = choose|path: Seq<A>|
        path.len() > 0 && start.contains(path[0]) && path.last() == a && #[trigger] is_walk(
            path,
            step,
        );
    let longer = path.push(b);
    assert forall|i: int| 0 <= i < longer.len() - 1 implies step(#[trigger] longer[i], longer[i + 1]) by {
        if i < path.len() - 1 {
            assert(longer[i] == path[i]);
            assert(longer[i + 1] == path[i + 1]);
        }
    }
    assert(is_walk(longer, step));
    assert(longer[0] == path[0]);
}

/// No step leads out of what is reachable.
pub proof fn lemma_reachable_closed<A>(start: Set<A>, step: spec_fn(A, A) -> bool)
    ensures
        closed_under(reachable(start, step), step),
{
    assert forall|a: A, b: A| reachable(start, step).contains(a) && #[trigger] step(a, b) implies reachable(
        start,
        step,
    ).contains(b) by {
        lemma_step_reachable(start, step, a, b);
    }
}

proof fn lemma_walk_stays<A>(set: Set<A>, step: spec_fn(A, A) -> bool, path: Seq<A>, n: int)
    requires
        closed_under(set, step),
        is_walk(path, step),
        0 <= n < path.len(),
        set.contains(path[0]),
    ensures
        set.contains(path[n]),
    decreases n,
{
    if n > 0 {
        lemma_walk_stays(set, step, path, n - 1);
        assert(step(path[n - 1], path[n - 1 + 1]));
    }
}

/// What is reachable is the least set that contains the start and that no step leaves.
pub proof fn lemma_reachable_least<A>(start: Set<A>, step: spec_fn(A, A) -> bool, set: Set<A>)
    requires
        start.subset_of(set),
        closed_under(set, step),
    ensures
        reachable(start, step).subset_of(set),
{
    assert forall|goal: A| reachable(start, step).contains(goal) implies set.contains(goal) by {
        let path = choose|path: Seq<A>|
            path.len() > 0 && start.contains(path[0]) && path.last() == goal && #[trigger] is_walk(
                path,
                step,
            );
        lemma_walk_stays(set, step, path, path.len() - 1);
    }
}

/// A larger start reaches at least as much.
pub proof fn lemma_reachable_monotone<A>(
    start: Set<A>,
    larger: Set<A>,
    step: spec_fn(A, A) -> bool,
)
    requires
        start.subset_of(larger),
    ensures
        reachable(start, step).subset_of(reachable(larger, step)),
{
    lemma_start_reachable(larger, step);
    lemma_reachable_closed(larger, step);
    lemma_reachable_least(start, step, reachable(larger, step));
}

/// The steps that a successor map allows.
pub open spec fn steps<A>(next: Map<A, Set<A>>) -> spec_fn(A, A) -> bool {
    |a: A, b: A| next.contains_key(a) && next[a].contains(b)
}

/// The pairs that a successor map connects.
pub open spec fn edges<A>(next: Map<A, Set<A>>) -> Set<(A, A)> {
    Set::new(|e: (A, A)| next.contains_key(e.0) && next[e.0].contains(e.1))
}

/// Connects `from` to `to`.
pub fn add_edge<K: Ordered>(next: &mut SortedMap<K, SortedSet<K>>, from: &K, to: &K)
    ensures
        edges(final(next)@) == edges(old(next)@).insert((from@, to@)),
{
    let ghost before = edges(next@);
    let mut targets: SortedSet<K> = match next.remove(from) {
        Some(targets) => targets,
        None => SortedSet::new(),
    };
    targets.insert(to.duplicate());
    next.insert(from.duplicate(), targets);
    assert(edges(next@) =~= before.insert((from@, to@)));
}

/// A set that holds the start, only what is reachable, and no step's end without its beginning is
/// what is reachable.
pub proof fn lemma_explored<A>(start: Set<A>, step: spec_fn(A, A) -> bool, found: Set<A>)
    requires
        start.subset_of(found),
        found.subset_of(reachable(start, step)),
        closed_under(found, step),
    ensures
        found == reachable(start, step),
{
    lemma_reachable_least(start, step, found);
    assert(found =~= reachable(start, step));
}

/// Breadth-first search: everything reachable from `start` along `next`.
pub fn explore<K: Ordered>(start: &SortedSet<K>, next: &SortedMap<K, SortedSet<K>>) -> (found:
    SortedSet<K>)
    ensures
        found@ == reachable(start@, steps(next@)),
        is_listed::<K>(found@),
{
    let ghost step = steps(next@);
    let mut found: SortedSet<K> = SortedSet::new();
    let mut queue: Vec<K> = Vec::new();
    let count = start.len();
    let ghost seeds = in_order::<K>(start@);
    proof {
        lemma_start_reachable(start@, step);
    }
    let mut i: usize = 0;
    while i < count
        invariant
            i <= count,
            count == seeds.len(),
            seeds == in_order::<K>(start@),
            seeds.to_set() == start@,
            start@.subset_of(reachable(start@, step)),
            is_listed::<K>(found@),
            forall|j: int| 0 <= j < i ==> found@.contains(#[trigger] seeds[j]),
            forall|x: K::V| #[trigger] found@.contains(x) ==> reachable(start@, step).contains(x),
            forall|x: K::V| #[trigger]
                found@.contains(x) ==> exists|j: int|
                    0 <= j < queue@.len() && (#[trigger] queue@[j])@ == x,
            forall|j: int| 0 <= j < queue@.len() ==> found@.contains((#[trigger] queue@[j])@),
        decreases count - i,
    {
        let ghost before = found@;
        let ghost old_queue = queue@;
        let key = start.at(i).duplicate();
        let ghost k = key@;
        assert(seeds.to_set().contains(seeds[i as int]));
        found.insert(key.duplicate());
        queue.push(key);
        proof {
            assert forall|x: K::V| #[trigger] found@.contains(x) implies exists|j: int|
                0 <= j < queue@.len() && (#[trigger] queue@[j])@ == x by {
                if before.contains(x) {
                    let j = choose|j: int| 0 <= j < old_queue.len() && (#[trigger] old_queue[j])@
                        == x;
                    assert(queue@[j] == old_queue[j]);
                } else {
                    assert(queue@[old_queue.len() as int]@ == x);
                }
            }
        }
        i += 1;
    }
    assert forall|x: K::V| start@.contains(x) implies found@.contains(x) by {
        assert(seeds.to_set().contains(x));
        let j = choose|j: int| 0 <= j < seeds.len() && seeds[j] == x;
        assert(found@.contains(seeds[j]));
    }
    let mut head: usize = 0;
    while head < queue.len()
        invariant
            head <= queue@.len(),
            step == steps(next@),
            start@.subset_of(found@),
            is_listed::<K>(found@),
            forall|x: K::V| #[trigger] found@.contains(x) ==> reachable(start@, step).contains(x),
            forall|x: K::V| #[trigger]
                found@.contains(x) ==> exists|j: int|
                    0 <= j < queue@.len() && (#[trigger] queue@[j])@ == x,
            forall|j: int| 0 <= j < queue@.len() ==> found@.contains((#[trigger] queue@[j])@),
            forall|j: int, b: K::V|
                0 <= j < head && #[trigger] step((#[trigger] queue@[j])@, b) ==> found@.contains(b),
        decreases usize::MAX - head,
    {
        let ghost a = queue@[head as int]@;
        let ghost first_queue = queue@;
        let ghost first_found = found@;
        assert(found@.contains(a));
        if let Some(successors) = next.get(&queue[head]) {
            let n = successors.len();
            let ghost list = in_order::<K>(successors@);
            let ghost start_queue = queue@;
            let ghost start_found = found@;
            let mut i: usize = 0;
            while i < n
                invariant
                    i <= n,
                    n == list.len(),
                    list == in_order::<K>(successors@),
                    list.to_set() == successors@,
                    head < start_queue.len() <= queue@.len(),
                    step == steps(next@),
                    next@.contains_key(a),
                    next@[a] == successors@,
                    reachable(start@, step).contains(a),
                    start_found.subset_of(found@),
                    is_listed::<K>(found@),
                    forall|j: int| 0 <= j < start_queue.len() ==> queue@[j] == start_queue[j],
                    forall|j: int| 0 <= j < i ==> found@.contains(#[trigger] list[j]),
                    forall|x: K::V| #[trigger]
                        found@.contains(x) ==> reachable(start@, step).contains(x),
                    forall|x: K::V| #[trigger]
                        found@.contains(x) ==> exists|j: int|
                            0 <= j < queue@.len() && (#[trigger] queue@[j])@ == x,
                    forall|j: int|
                        0 <= j < queue@.len() ==> found@.contains((#[trigger] queue@[j])@),
                decreases n - i,
            {
                let ghost before = found@;
                let ghost old_queue = queue@;
                let key = successors.at(i).duplicate();
                let ghost k = key@;
                proof {
                    assert(list.to_set().contains(list[i as int]));
                    assert(step(a, k));
                    lemma_step_reachable(start@, step, a, k);
                }
                if found.insert(key.duplicate()) {
                    queue.push(key);
                    assert(queue@[old_queue.len() as int]@ == k);
                }
                proof {
                    assert forall|x: K::V| #[trigger] found@.contains(x) implies exists|j: int|
                        0 <= j < queue@.len() && (#[trigger] queue@[j])@ == x by {
                        if before.contains(x) {
                            let j = choose|j: int|
                                0 <= j < old_queue.len() && (#[trigger] old_queue[j])@ == x;
                            assert(queue@[j] == old_queue[j]);
                        }
                    }
                }
                i += 1;
            }
            assert forall|b: K::V| step(a, b) implies found@.contains(b) by {
                assert(list.to_set().contains(b));
                let j = choose|j: int| 0 <= j < list.len() && list[j] == b;
                assert(found@.contains(list[j]));
            }
        }
        proof {
            assert forall|j: int, b: K::V| 0 <= j < head + 1 && #[trigger] step(
                (#[trigger] queue@[j])@,
                b,
            ) implies found@.contains(b) by {
                assert(queue@[j] == first_queue[j]);
                if j < head {
                    assert(step(first_queue[j]@, b));
                    assert(first_found.contains(b));
                }
            }
        }
        head += 1;
    }
    proof {
        assert forall|a: K::V, b: K::V| found@.contains(a) && #[trigger] step(a, b) implies found@.contains(
            b,
        ) by {
            let j = choose|j: int| 0 <= j < queue@.len() && (#[trigger] queue@[j])@ == a;
            assert(step(queue@[j]@, b));
        }
        lemma_explored(start@, step, found@);
    }
    found
}

} // verus!
