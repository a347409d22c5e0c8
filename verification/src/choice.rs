//! Choosing the best of numbered candidates.
use vstd::prelude::*;

verus! {

/// Whether candidate `at` of the first `count` may be chosen and is better than all others that
/// may.
pub open spec fn is_pick(
    at: int,
    count: int,
    eligible: spec_fn(int) -> bool,
    better: spec_fn(int, int) -> bool,
) -> bool {
    &&& 0 <= at < count
    &&& eligible(at)
    &&& forall|other: int|
        0 <= other < count && other != at && #[trigger] eligible(other) ==> better(at, other)
}

/// The best eligible candidate of the first `count`, if there is one.
pub open spec fn pick(
    count: int,
    eligible: spec_fn(int) -> bool,
    better: spec_fn(int, int) -> bool,
) -> Option<int> {
    if exists|at: int| is_pick(at, count, eligible, better) {
        Some(choose|at: int| is_pick(at, count, eligible, better))
    } else {
        None
    }
}

/// `better` puts the first `count` candidates into a strict order.
pub open spec fn orders(count: int, better: spec_fn(int, int) -> bool) -> bool {
    &&& forall|a: int, b: int|
        0 <= a < count && 0 <= b < count && a != b ==> #[trigger] better(a, b) != better(b, a)
    &&& forall|a: int, b: int, c: int|
        0 <= a < count && 0 <= b < count && 0 <= c < count && a != c && #[trigger] better(a, b)
            && #[trigger] better(b, c) ==> better(a, c)
}

/// `best` is what a search through the first `count` candidates has found.
pub open spec fn picked(
    best: Option<usize>,
    count: int,
    eligible: spec_fn(int) -> bool,
    better: spec_fn(int, int) -> bool,
) -> bool {
    match best {
        Some(at) => is_pick(at as int, count, eligible, better),
        None => forall|at: int| 0 <= at < count ==> !#[trigger] eligible(at),
    }
}

/// What a search has found is the best candidate.
pub proof fn lemma_picked(
    best: Option<usize>,
    count: int,
    eligible: spec_fn(int) -> bool,
    better: spec_fn(int, int) -> bool,
)
    requires
        orders(count, better),
        picked(best, count, eligible, better),
    ensures
        pick(count, eligible, better) == (match best {
            Some(at) => Some(at as int),
            None => None,
        }),
{
    if let Some(at) = best {
        let other = choose|other: int| is_pick(other, count, eligible, better);
        assert(is_pick(other, count, eligible, better));
        if other != at {
            assert(better(at as int, other) && better(other, at as int));
        }
    }
}

/// One more candidate.
pub proof fn lemma_pick_next(
    best: Option<usize>,
    at: usize,
    eligible: spec_fn(int) -> bool,
    better: spec_fn(int, int) -> bool,
)
    requires
        orders(at + 1, better),
        picked(best, at as int, eligible, better),
    ensures
        !eligible(at as int) ==> picked(best, at + 1, eligible, better),
        eligible(at as int) && best is None ==> picked(Some(at), at + 1, eligible, better),
        best matches Some(held) ==> (eligible(at as int) ==> picked(
            if better(at as int, held as int) {
                Some(at)
            } else {
                best
            },
            at + 1,
            eligible,
            better,
        )),
{
    if let Some(held) = best {
        if eligible(at as int) && better(at as int, held as int) {
            assert forall|other: int|
                0 <= other < at + 1 && other != at && #[trigger] eligible(other) implies better(
                at as int,
                other,
            ) by {
                if other != held {
                    assert(better(held as int, other));
                }
            }
        } else if eligible(at as int) {
            assert(better(at as int, held as int) != better(held as int, at as int));
        }
    }
}

/// Numbered candidates with an order among them.
pub trait Candidates {
    /// The number of candidates.
    spec fn total(&self) -> int;

    /// Which candidates may be chosen.
    spec fn allowed(&self) -> spec_fn(int) -> bool;

    /// Which of two candidates is better.
    spec fn preferred(&self) -> spec_fn(int, int) -> bool;

    fn count(&self) -> (count: usize)
        ensures
            count == self.total(),
    ;

    fn allows(&self, at: usize) -> (allowed: bool)
        requires
            at < self.total(),
        ensures
            allowed == (self.allowed())(at as int),
    ;

    fn prefers(&self, a: usize, b: usize) -> (better: bool)
        requires
            a < self.total(),
            b < self.total(),
        ensures
            better == (self.preferred())(a as int, b as int),
    ;

    /// The order is strict.
    proof fn lemma_ordered(&self)
        ensures
            orders(self.total(), self.preferred()),
    ;
}

/// The position of the best candidate, if any may be chosen.
pub open spec fn place_of(found: Option<usize>) -> Option<int> {
    match found {
        Some(at) => Some(at as int),
        None => None,
    }
}

/// Find the best candidate.
pub fn best<C: Candidates>(candidates: &C) -> (found: Option<usize>)
    ensures
        place_of(found) == pick(
            candidates.total(),
            candidates.allowed(),
            candidates.preferred(),
        ),
        picked(found, candidates.total(), candidates.allowed(), candidates.preferred()),
{
    let mut found: Option<usize> = None;
    proof {
        candidates.lemma_ordered();
    }
    let count: usize = candidates.count();
    for at in 0..count
        invariant
            count == candidates.total(),
            orders(candidates.total(), candidates.preferred()),
            picked(found, at as int, candidates.allowed(), candidates.preferred()),
    {
        proof {
            lemma_pick_next(found, at, candidates.allowed(), candidates.preferred());
        }
        if candidates.allows(at) {
            let replace: bool = match found {
                Some(held) => candidates.prefers(at, held),
                None => true,
            };
            if replace {
                found = Some(at);
            }
        }
    }
    proof {
        lemma_picked(found, count as int, candidates.allowed(), candidates.preferred());
    }
    found
}

proof fn lemma_pick_exists(
    count: int,
    eligible: spec_fn(int) -> bool,
    better: spec_fn(int, int) -> bool,
    at: int,
)
    requires
        orders(count, better),
        0 <= at < count,
        eligible(at),
    ensures
        exists|found: int| is_pick(found, count, eligible, better),
    decreases count,
{
    let last = count - 1;
    if exists|k: int| 0 <= k < last && #[trigger] eligible(k) {
        let k = choose|k: int| 0 <= k < last && #[trigger] eligible(k);
        lemma_pick_exists(last, eligible, better, k);
        let held = choose|found: int| is_pick(found, last, eligible, better);
        assert(better(held, last) != better(last, held));
        if eligible(last) && better(last, held) {
            assert forall|other: int|
                0 <= other < count && other != last && #[trigger] eligible(other) implies better(
                last,
                other,
            ) by {
                if other != held {
                    assert(better(held, other));
                }
            }
            assert(is_pick(last, count, eligible, better));
        } else {
            assert(is_pick(held, count, eligible, better));
        }
    } else {
        assert(is_pick(last, count, eligible, better));
    }
}

/// Of candidates in a strict order, the picked one is eligible and better than every other eligible
/// one; one is picked exactly where one is eligible.
pub proof fn lemma_pick(
    count: int,
    eligible: spec_fn(int) -> bool,
    better: spec_fn(int, int) -> bool,
)
    requires
        forall|a: int, b: int|
            0 <= a < count && 0 <= b < count && a != b ==> #[trigger] better(a, b) != better(b, a),
        forall|a: int, b: int, c: int|
            0 <= a < count && 0 <= b < count && 0 <= c < count && a != c && #[trigger] better(a, b)
                && #[trigger] better(b, c) ==> better(a, c),
    ensures
        match pick(count, eligible, better) {
            Some(at) => {
                &&& 0 <= at < count
                &&& eligible(at)
                &&& forall|other: int|
                    0 <= other < count && other != at && #[trigger] eligible(other) ==> better(
                        at,
                        other,
                    )
            },
            None => forall|at: int| 0 <= at < count ==> !#[trigger] eligible(at),
        },
{
    if exists|at: int| 0 <= at < count && #[trigger] eligible(at) {
        let at = choose|at: int| 0 <= at < count && #[trigger] eligible(at);
        assert(orders(count, better));
        lemma_pick_exists(count, eligible, better, at);
    }
}

} // verus!
