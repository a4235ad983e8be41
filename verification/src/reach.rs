//! Reachability through a relation, counted in steps.
use vstd::prelude::*;

verus! {

/// `b` is `count` steps of `step` away from `a`.
pub open spec fn reaches_in<A>(step: spec_fn(A, A) -> bool, a: A, b: A, count: nat) -> bool
    decreases count,
{
    if count == 0 {
        a == b
    } else {
        exists|mid: A|
            reaches_in(step, a, mid, (count - 1) as nat) && #[trigger] step(mid, b)
    }
}

/// Some number of steps, possibly none, leads from `a` to `b`.
pub open spec fn reaches<A>(step: spec_fn(A, A) -> bool, a: A, b: A) -> bool {
    exists|count: nat| #[trigger] reaches_in(step, a, b, count)
}

/// Everything reaches itself.
pub proof fn lemma_reaches_itself<A>(step: spec_fn(A, A) -> bool, a: A)
    ensures
        reaches(step, a, a),
{
    assert(reaches_in(step, a, a, 0));
}

/// One more step from a reached value reaches the next.
pub proof fn lemma_reaches_step<A>(step: spec_fn(A, A) -> bool, a: A, b: A, c: A)
    requires
        reaches(step, a, b),
        step(b, c),
    ensures
        reaches(step, a, c),
{
    let count = choose|count: nat| #[trigger] reaches_in(step, a, b, count);
    assert(reaches_in(step, a, b, ((count + 1) - 1) as nat));
    assert(reaches_in(step, a, c, count + 1));
}

/// Reachability is transitive.
pub proof fn lemma_reaches_transitive<A>(step: spec_fn(A, A) -> bool, a: A, b: A, c: A)
    requires
        reaches(step, a, b),
        reaches(step, b, c),
    ensures
        reaches(step, a, c),
{
    let count = choose|count: nat| #[trigger] reaches_in(step, b, c, count);
    lemma_reaches_then(step, a, b, c, count);
}

proof fn lemma_reaches_then<A>(step: spec_fn(A, A) -> bool, a: A, b: A, c: A, count: nat)
    requires
        reaches(step, a, b),
        reaches_in(step, b, c, count),
    ensures
        reaches(step, a, c),
    decreases count,
{
    if count > 0 {
        let mid = choose|mid: A|
            reaches_in(step, b, mid, (count - 1) as nat) && #[trigger] step(mid, c);
        lemma_reaches_then(step, a, b, mid, (count - 1) as nat);
        lemma_reaches_step(step, a, mid, c);
    }
}

/// A set that `step` does not leave holds all that its members reach.
pub proof fn lemma_closed_set<A>(step: spec_fn(A, A) -> bool, set: Set<A>, a: A, b: A)
    requires
        set.contains(a),
        forall|x: A, y: A| set.contains(x) && #[trigger] step(x, y) ==> set.contains(y),
        reaches(step, a, b),
    ensures
        set.contains(b),
{
    let count = choose|count: nat| #[trigger] reaches_in(step, a, b, count);
    lemma_closed_set_in(step, set, a, b, count);
}

proof fn lemma_closed_set_in<A>(step: spec_fn(A, A) -> bool, set: Set<A>, a: A, b: A, count: nat)
    requires
        set.contains(a),
        forall|x: A, y: A| set.contains(x) && #[trigger] step(x, y) ==> set.contains(y),
        reaches_in(step, a, b, count),
    ensures
        set.contains(b),
    decreases count,
{
    if count > 0 {
        let mid = choose|mid: A|
            reaches_in(step, a, mid, (count - 1) as nat) && #[trigger] step(mid, b);
        lemma_closed_set_in(step, set, a, mid, (count - 1) as nat);
    }
}

/// The first step of a walk of at least one step.
pub proof fn lemma_reaches_first_step<A>(step: spec_fn(A, A) -> bool, a: A, b: A) -> (next: A)
    requires
        reaches(step, a, b),
        a != b,
    ensures
        step(a, next),
        reaches(step, next, b),
{
    let count = choose|count: nat| #[trigger] reaches_in(step, a, b, count);
    lemma_first_step_in(step, a, b, count)
}

proof fn lemma_first_step_in<A>(step: spec_fn(A, A) -> bool, a: A, b: A, count: nat) -> (next: A)
    requires
        reaches_in(step, a, b, count),
        count > 0,
    ensures
        step(a, next),
        reaches(step, next, b),
    decreases count,
{
    let mid = choose|mid: A|
        reaches_in(step, a, mid, (count - 1) as nat) && #[trigger] step(mid, b);
    if count == 1 {
        lemma_reaches_itself(step, b);
        b
    } else {
        let next = lemma_first_step_in(step, a, mid, (count - 1) as nat);
        lemma_reaches_step(step, next, mid, b);
        next
    }
}

/// A larger relation reaches at least as much.
pub proof fn lemma_reaches_more<A>(
    step: spec_fn(A, A) -> bool,
    more: spec_fn(A, A) -> bool,
    a: A,
    b: A,
)
    requires
        forall|x: A, y: A| #[trigger] step(x, y) ==> more(x, y),
        reaches(step, a, b),
    ensures
        reaches(more, a, b),
{
    let count = choose|count: nat| #[trigger] reaches_in(step, a, b, count);
    lemma_reaches_more_in(step, more, a, b, count);
}

proof fn lemma_reaches_more_in<A>(
    step: spec_fn(A, A) -> bool,
    more: spec_fn(A, A) -> bool,
    a: A,
    b: A,
    count: nat,
)
    requires
        forall|x: A, y: A| #[trigger] step(x, y) ==> more(x, y),
        reaches_in(step, a, b, count),
    ensures
        reaches(more, a, b),
    decreases count,
{
    if count == 0 {
        lemma_reaches_itself(more, a);
    } else {
        let mid = choose|mid: A|
            reaches_in(step, a, mid, (count - 1) as nat) && #[trigger] step(mid, b);
        lemma_reaches_more_in(step, more, a, mid, (count - 1) as nat);
        lemma_reaches_step(more, a, mid, b);
    }
}

/// A path leads from `a` to `b`, each value one step after the one before.
pub open spec fn is_path<A>(step: spec_fn(A, A) -> bool, path: Seq<A>, a: A, b: A) -> bool {
    &&& path.len() > 0
    &&& path[0] == a
    &&& path[path.len() - 1] == b
    &&& forall|i: int, j: int|
        0 <= i && j == i + 1 && j < path.len() ==> step(#[trigger] path[i], #[trigger] path[j])
}

proof fn lemma_path_of<A>(step: spec_fn(A, A) -> bool, a: A, b: A, count: nat) -> (path: Seq<A>)
    requires
        reaches_in(step, a, b, count),
    ensures
        is_path(step, path, a, b),
    decreases count,
{
    if count == 0 {
        seq![a]
    } else {
        let mid = choose|mid: A|
            reaches_in(step, a, mid, (count - 1) as nat) && #[trigger] step(mid, b);
        let before = lemma_path_of(step, a, mid, (count - 1) as nat);
        let path = before.push(b);
        assert forall|i: int, j: int| 0 <= i && j == i + 1 && j < path.len() implies step(
            #[trigger] path[i],
            #[trigger] path[j],
        ) by {
            assert(path[i] == before[i]);
            if j < before.len() {
                assert(path[j] == before[j]);
            }
        }
        path
    }
}

proof fn lemma_path_reaches<A>(step: spec_fn(A, A) -> bool, path: Seq<A>, a: A, b: A)
    requires
        is_path(step, path, a, b),
    ensures
        reaches_in(step, a, b, (path.len() - 1) as nat),
    decreases path.len(),
{
    if path.len() > 1 {
        let before = path.drop_last();
        let mid = path[path.len() - 2];
        assert forall|i: int, j: int| 0 <= i && j == i + 1 && j < before.len() implies step(
            #[trigger] before[i],
            #[trigger] before[j],
        ) by {
            assert(before[i] == path[i] && before[j] == path[j]);
        }
        lemma_path_reaches(step, before, a, mid);
        assert(step(path[path.len() - 2], path[path.len() - 1]));
    }
}

/// One value reaches another if and only if a path leads there.
pub proof fn law_reaches_by_path<A>(step: spec_fn(A, A) -> bool, a: A, b: A)
    ensures
        reaches(step, a, b) <==> exists|path: Seq<A>| #[trigger] is_path(step, path, a, b),
{
    if reaches(step, a, b) {
        let count = choose|count: nat| #[trigger] reaches_in(step, a, b, count);
        let path = lemma_path_of(step, a, b, count);
    }
    if exists|path: Seq<A>| #[trigger] is_path(step, path, a, b) {
        let path = choose|path: Seq<A>| #[trigger] is_path(step, path, a, b);
        lemma_path_reaches(step, path, a, b);
    }
}

} // verus!
