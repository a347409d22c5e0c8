//! Ranking names by numeric keys.
use std::collections::VecDeque;
use vstd::prelude::*;

use crate::text::{is_text_before, lemma_text_order, text_before};

verus! {

/// A name with the numbers it is ranked by.
pub struct Ranked {
    pub major: u64,
    pub minor: u64,
    pub place: u64,
    pub name: String,
}

/// The rank of a name.
pub struct Rank {
    pub major: u64,
    pub minor: u64,
    pub place: u64,
    pub name: Seq<char>,
}

impl View for Ranked {
    type V = Rank;

    open spec fn view(&self) -> Rank {
        Rank { major: self.major, minor: self.minor, place: self.place, name: self.name@ }
    }
}

impl Rank {
    /// Rank order: by `major`, then `minor`, then `place`, then name.
    pub open spec fn is_before(self, other: Rank) -> bool {
        if self.major != other.major {
            self.major < other.major
        } else if self.minor != other.minor {
            self.minor < other.minor
        } else if self.place != other.place {
            self.place < other.place
        } else {
            text_before(self.name, other.name)
        }
    }
}

/// The ranks of a sequence of ranked names.
pub open spec fn ranks(items: Seq<Ranked>) -> Seq<Rank> {
    items.map_values(|item: Ranked| item@)
}

/// Each rank comes before every later one.
pub open spec fn in_rank_order(items: Seq<Rank>) -> bool {
    forall|i: int, j: int| 0 <= i < j < items.len() ==> (#[trigger] items[i]).is_before(
        #[trigger] items[j],
    )
}

/// The listing of a set of ranks in rank order.
pub open spec fn listing(set: Set<Rank>) -> Seq<Rank> {
    choose|items: Seq<Rank>| in_rank_order(items) && items.to_set() == set
}

proof fn lemma_rank_order(a: Rank, b: Rank, c: Rank)
    ensures
        !a.is_before(a),
        a == b || a.is_before(b) || b.is_before(a),
        a.is_before(b) && b.is_before(c) ==> a.is_before(c),
        a.is_before(b) ==> !b.is_before(a),
{
    lemma_text_order(a.name, b.name, c.name);
    lemma_text_order(a.name, b.name, a.name);
}

/// A set has one listing in rank order.
pub proof fn lemma_listing_unique(a: Seq<Rank>, b: Seq<Rank>)
    requires
        in_rank_order(a),
        in_rank_order(b),
        a.to_set() == b.to_set(),
    ensures
        a == b,
    decreases a.len(),
{
    if a.len() == 0 {
        if b.len() > 0 {
            assert(b.to_set().contains(b[0]));
            assert(a.contains(b[0]));
        }
        assert(a =~= b);
    } else {
        assert(a.to_set().contains(a[0]));
        assert(b.contains(a[0]));
        let at = choose|at: int| 0 <= at < b.len() && b[at] == a[0];
        assert(b.to_set().contains(b[0]));
        assert(a.contains(b[0]));
        let back = choose|back: int| 0 <= back < a.len() && a[back] == b[0];
        lemma_rank_order(a[0], b[0], a[0]);
        assert(a[0] == b[0]);
        let x = a.drop_first();
        let y = b.drop_first();
        assert forall|i: int, j: int| 0 <= i < j < x.len() implies (#[trigger] x[i]).is_before(
            #[trigger] x[j],
        ) by {
            assert(a[i + 1].is_before(a[j + 1]));
        }
        assert forall|i: int, j: int| 0 <= i < j < y.len() implies (#[trigger] y[i]).is_before(
            #[trigger] y[j],
        ) by {
            assert(b[i + 1].is_before(b[j + 1]));
        }
        assert forall|r: Rank| x.to_set().contains(r) == y.to_set().contains(r) by {
            lemma_rank_order(a[0], r, r);
            if x.contains(r) {
                let i = choose|i: int| 0 <= i < x.len() && x[i] == r;
                assert(a[0].is_before(a[i + 1]));
                assert(a.to_set().contains(a[i + 1]));
                assert(b.contains(r));
                let j = choose|j: int| 0 <= j < b.len() && b[j] == r;
                assert(y[j - 1] == r);
            }
            if y.contains(r) {
                let i = choose|i: int| 0 <= i < y.len() && y[i] == r;
                assert(b[0].is_before(b[i + 1]));
                assert(b.to_set().contains(b[i + 1]));
                assert(a.contains(r));
                let j = choose|j: int| 0 <= j < a.len() && a[j] == r;
                assert(x[j - 1] == r);
            }
        }
        assert(x.to_set() =~= y.to_set());
        lemma_listing_unique(x, y);
        assert(a =~= seq![a[0]] + x);
        assert(b =~= seq![b[0]] + y);
    }
}

/// What is in rank order lists its own elements.
pub proof fn lemma_listing(items: Seq<Rank>)
    requires
        in_rank_order(items),
    ensures
        listing(items.to_set()) == items,
{
    let other = listing(items.to_set());
    assert(in_rank_order(items) && items.to_set() == items.to_set());
    lemma_listing_unique(items, other);
}

/// Every finite set has a first rank, if it has any.
pub proof fn lemma_first_exists(set: Set<Rank>) -> (first: Rank)
    requires
        set.finite(),
        set.len() > 0,
    ensures
        is_first_rank(first, set),
    decreases set.len(),
{
    let some = set.choose();
    assert(set.contains(some)) by {
        if set =~= Set::empty() {
        }
    }
    let rest = set.remove(some);
    if rest.len() == 0 {
        assert forall|other: Rank| #[trigger] set.contains(other) implies other == some by {
            if other != some {
                assert(rest.contains(other));
                assert(rest =~= Set::empty());
            }
        }
        some
    } else {
        let first = lemma_first_exists(rest);
        lemma_first_rank_grows(first, some, rest);
        assert(rest.insert(some) =~= set);
        if some.is_before(first) {
            some
        } else {
            first
        }
    }
}

/// A finite set of ranks has a listing.
pub proof fn lemma_listing_exists(set: Set<Rank>)
    requires
        set.finite(),
    ensures
        in_rank_order(listing(set)),
        listing(set).to_set() == set,
    decreases set.len(),
{
    if set.len() == 0 {
        let none = Seq::<Rank>::empty();
        assert(set =~= Set::empty());
        assert(none.to_set() =~= set);
        assert(in_rank_order(none) && none.to_set() == set);
    } else {
        let first = lemma_first_exists(set);
        let rest = set.remove(first);
        lemma_listing_exists(rest);
        let tail = listing(rest);
        let whole = seq![first] + tail;
        assert forall|i: int, j: int| 0 <= i < j < whole.len() implies (
        #[trigger] whole[i]).is_before(#[trigger] whole[j]) by {
            assert(tail.to_set().contains(tail[j - 1]));
            if i > 0 {
                assert(tail[i - 1].is_before(tail[j - 1]));
            }
        }
        assert forall|r: Rank| whole.to_set().contains(r) <==> set.contains(r) by {
            if set.contains(r) {
                if r == first {
                    assert(whole[0] == r);
                } else {
                    assert(rest.contains(r));
                    assert(tail.contains(r));
                    let k = choose|k: int| 0 <= k < tail.len() && tail[k] == r;
                    assert(whole[k + 1] == r);
                }
            }
            if whole.contains(r) {
                let k = choose|k: int| 0 <= k < whole.len() && whole[k] == r;
                if k > 0 {
                    assert(tail.to_set().contains(tail[k - 1]));
                }
            }
        }
        assert(whole.to_set() =~= set);
        assert(in_rank_order(whole) && whole.to_set() == set);
    }
}

/// The ranks of finitely many names are finite.
pub proof fn lemma_ranks_finite(
    names: Set<Seq<char>>,
    rank: spec_fn(Seq<char>) -> Option<Rank>,
)
    requires
        names.finite(),
    ensures
        ranks_of(names, rank).finite(),
{
    let all = names.map(|name: Seq<char>| rank(name)->0);
    names.lemma_map_finite(|name: Seq<char>| rank(name)->0);
    assert forall|r: Rank| ranks_of(names, rank).contains(r) implies all.contains(r) by {
        assert(names.contains(r.name) && rank(r.name)->0 == r);
    }
    vstd::set_lib::lemma_set_subset_finite(all, ranks_of(names, rank));
}

/// Whether one ranked name comes before another.
pub fn ranks_before(a: &Ranked, b: &Ranked) -> (earlier: bool)
    ensures
        earlier == a@.is_before(b@),
{
    if a.major != b.major {
        a.major < b.major
    } else if a.minor != b.minor {
        a.minor < b.minor
    } else if a.place != b.place {
        a.place < b.place
    } else {
        is_text_before(a.name.as_str(), b.name.as_str())
    }
}

spec fn apart(a: Seq<Rank>, b: Seq<Rank>) -> bool {
    forall|i: int, j: int| 0 <= i < a.len() && 0 <= j < b.len() ==> #[trigger] a[i]
        != #[trigger] b[j]
}

spec fn all_before(a: Seq<Rank>, b: Seq<Rank>) -> bool {
    forall|i: int, j: int|
        0 <= i < a.len() && 0 <= j < b.len() ==> (#[trigger] a[i]).is_before(#[trigger] b[j])
}

proof fn lemma_append_head(out: Seq<Rank>, from: Seq<Rank>, other: Seq<Rank>)
    requires
        from.len() > 0,
        in_rank_order(out),
        in_rank_order(from),
        in_rank_order(other),
        all_before(out, from),
        all_before(out, other),
        other.len() > 0 ==> from[0].is_before(other[0]),
    ensures
        in_rank_order(out.push(from[0])),
        in_rank_order(from.drop_first()),
        all_before(out.push(from[0]), from.drop_first()),
        all_before(out.push(from[0]), other),
{
    let next = out.push(from[0]);
    let rest = from.drop_first();
    assert forall|i: int, j: int| 0 <= i < j < rest.len() implies (#[trigger] rest[i]).is_before(
        #[trigger] rest[j],
    ) by {
        assert(from[i + 1].is_before(from[j + 1]));
    }
    assert forall|i: int, j: int| 0 <= i < next.len() && 0 <= j < rest.len() implies (
    #[trigger] next[i]).is_before(#[trigger] rest[j]) by {
        assert(rest[j] == from[j + 1]);
        assert(from[0].is_before(from[j + 1]));
    }
    assert forall|i: int, j: int| 0 <= i < next.len() && 0 <= j < other.len() implies (
    #[trigger] next[i]).is_before(#[trigger] other[j]) by {
        if i == out.len() && j > 0 {
            assert(other[0].is_before(other[j]));
            lemma_rank_order(from[0], other[0], other[j]);
        }
    }
}

fn merge(a: VecDeque<Ranked>, b: VecDeque<Ranked>) -> (merged: VecDeque<Ranked>)
    requires
        in_rank_order(ranks(a@)),
        in_rank_order(ranks(b@)),
        apart(ranks(a@), ranks(b@)),
    ensures
        in_rank_order(ranks(merged@)),
        forall|r: Rank| #[trigger]
            ranks(merged@).contains(r) <==> ranks(a@).contains(r) || ranks(b@).contains(r),
{
    let mut left: VecDeque<Ranked> = a;
    let mut right: VecDeque<Ranked> = b;
    let mut merged: VecDeque<Ranked> = VecDeque::new();
    let ghost whole = |r: Rank| ranks(a@).contains(r) || ranks(b@).contains(r);
    while left.len() > 0 || right.len() > 0
        invariant
            in_rank_order(ranks(left@)),
            in_rank_order(ranks(right@)),
            in_rank_order(ranks(merged@)),
            all_before(ranks(merged@), ranks(left@)),
            all_before(ranks(merged@), ranks(right@)),
            apart(ranks(left@), ranks(right@)),
            forall|r: Rank|
                #![trigger whole(r)]
                whole(r) <==> ranks(merged@).contains(r) || ranks(left@).contains(r) || ranks(
                    right@,
                ).contains(r),
        decreases left@.len() + right@.len(),
    {
        let take_left: bool = if left.len() == 0 {
            false
        } else if right.len() == 0 {
            true
        } else {
            ranks_before(&left[0], &right[0])
        };
        let ghost had_left = ranks(left@);
        let ghost had_right = ranks(right@);
        let ghost had = ranks(merged@);
        proof {
            if had_left.len() > 0 && had_right.len() > 0 {
                assert(had_left[0] != had_right[0]);
                lemma_rank_order(had_left[0], had_right[0], had_left[0]);
            }
        }
        if take_left {
            proof {
                lemma_append_head(had, had_left, had_right);
            }
            if let Some(item) = left.pop_front() {
                merged.push_back(item);
            }
            proof {
                assert(ranks(left@) =~= had_left.drop_first());
                assert(ranks(merged@) =~= had.push(had_left[0]));
                lemma_moved(had, had_left);
                assert(apart(ranks(left@), ranks(right@)));
            }
        } else {
            proof {
                lemma_append_head(had, had_right, had_left);
            }
            if let Some(item) = right.pop_front() {
                merged.push_back(item);
            }
            proof {
                assert(ranks(right@) =~= had_right.drop_first());
                assert(ranks(merged@) =~= had.push(had_right[0]));
                lemma_moved(had, had_right);
                assert(apart(ranks(left@), ranks(right@)));
            }
        }
    }
    proof {
        assert forall|r: Rank| #[trigger]
            ranks(merged@).contains(r) <==> ranks(a@).contains(r) || ranks(b@).contains(r) by {
            assert(whole(r) <==> ranks(merged@).contains(r));
        }
    }
    merged
}

proof fn lemma_moved(out: Seq<Rank>, from: Seq<Rank>)
    requires
        from.len() > 0,
    ensures
        forall|r: Rank|
            out.contains(r) || from.contains(r) <==> #[trigger] out.push(from[0]).contains(r)
                || from.drop_first().contains(r),
{
    let next = out.push(from[0]);
    let rest = from.drop_first();
    assert forall|r: Rank| out.contains(r) || from.contains(r) <==> #[trigger] next.contains(r)
        || rest.contains(r) by {
        if out.contains(r) {
            let i = choose|i: int| 0 <= i < out.len() && out[i] == r;
            assert(next[i] == r);
        }
        if from.contains(r) {
            let i = choose|i: int| 0 <= i < from.len() && from[i] == r;
            if i == 0 {
                assert(next[out.len() as int] == r);
            } else {
                assert(rest[i - 1] == r);
            }
        }
        if next.contains(r) {
            let i = choose|i: int| 0 <= i < next.len() && next[i] == r;
            if i == out.len() {
                assert(from[0] == r);
            } else {
                assert(out[i] == r);
            }
        }
        if rest.contains(r) {
            let i = choose|i: int| 0 <= i < rest.len() && rest[i] == r;
            assert(from[i + 1] == r);
        }
    }
}

/// The first rank of a set.
pub open spec fn first_rank(set: Set<Rank>) -> Rank {
    choose|first: Rank| is_first_rank(first, set)
}

/// Whether a rank is in a set and before all others there.
pub open spec fn is_first_rank(first: Rank, set: Set<Rank>) -> bool {
    set.contains(first) && forall|other: Rank| #[trigger]
        set.contains(other) ==> other == first || first.is_before(other)
}

/// A set has one first rank.
pub proof fn lemma_first_rank(first: Rank, set: Set<Rank>)
    requires
        is_first_rank(first, set),
    ensures
        first_rank(set) == first,
{
    let other = first_rank(set);
    assert(is_first_rank(other, set));
    lemma_rank_order(first, other, first);
}

/// Keeping the first rank of a growing set.
pub proof fn lemma_first_rank_grows(first: Rank, next: Rank, set: Set<Rank>)
    requires
        is_first_rank(first, set),
    ensures
        next.is_before(first) ==> is_first_rank(next, set.insert(next)),
        !next.is_before(first) ==> is_first_rank(first, set.insert(next)),
{
    assert forall|other: Rank| #[trigger] set.insert(next).contains(other) implies (next.is_before(
        first,
    ) ==> other == next || next.is_before(other)) && (!next.is_before(first) ==> other == first
        || first.is_before(other)) by {
        lemma_rank_order(next, first, other);
        lemma_rank_order(first, next, first);
    }
}

fn sort(items: VecDeque<Ranked>) -> (sorted: VecDeque<Ranked>)
    requires
        ranks(items@).no_duplicates(),
    ensures
        in_rank_order(ranks(sorted@)),
        forall|r: Rank| #[trigger] ranks(sorted@).contains(r) <==> ranks(items@).contains(r),
    decreases items@.len(),
{
    let mut head: VecDeque<Ranked> = items;
    let count: usize = head.len();
    if count < 2 {
        return head;
    }
    let half: usize = count / 2;
    let tail: VecDeque<Ranked> = head.split_off(half);
    let ghost whole = ranks(items@);
    proof {
        assert(ranks(head@) =~= whole.take(half as int));
        assert(ranks(tail@) =~= whole.skip(half as int));
        assert forall|r: Rank| #[trigger]
            whole.contains(r) <==> ranks(head@).contains(r) || ranks(tail@).contains(r) by {
            if whole.contains(r) {
                let i = choose|i: int| 0 <= i < whole.len() && whole[i] == r;
                if i < half {
                    assert(ranks(head@)[i] == r);
                } else {
                    assert(ranks(tail@)[i - half] == r);
                }
            }
        }
    }
    let ghost front = ranks(head@);
    let ghost back = ranks(tail@);
    let left = sort(head);
    let right = sort(tail);
    proof {
        assert forall|i: int, j: int|
            0 <= i < ranks(left@).len() && 0 <= j < ranks(right@).len() implies #[trigger] ranks(
            left@,
        )[i] != #[trigger] ranks(right@)[j] by {
            assert(ranks(left@).contains(ranks(left@)[i]));
            assert(ranks(right@).contains(ranks(right@)[j]));
            let x = choose|x: int| 0 <= x < front.len() && front[x] == ranks(left@)[i];
            let y = choose|y: int| 0 <= y < back.len() && back[y] == ranks(right@)[j];
            assert(whole[x] != whole[y + half]);
        }
    }
    merge(left, right)
}

/// Put distinct ranked names into rank order.
pub fn sort_ranked(items: VecDeque<Ranked>) -> (sorted: VecDeque<Ranked>)
    requires
        ranks(items@).no_duplicates(),
    ensures
        ranks(sorted@) == listing(ranks(items@).to_set()),
        in_rank_order(ranks(sorted@)),
        ranks(sorted@).to_set() == ranks(items@).to_set(),
{
    let sorted = sort(items);
    proof {
        assert(ranks(sorted@).to_set() =~= ranks(items@).to_set());
        lemma_listing(ranks(sorted@));
    }
    sorted
}

/// The ranks that `rank` gives to the names of a set; a name it gives none is left out.
pub open spec fn ranks_of(
    names: Set<Seq<char>>,
    rank: spec_fn(Seq<char>) -> Option<Rank>,
) -> Set<Rank> {
    Set::new(|r: Rank| names.contains(r.name) && rank(r.name) == Some(r))
}

/// `items` holds, once each, the ranks of the first `at` names of a walk.
pub open spec fn gathered(
    items: Seq<Rank>,
    walk: Seq<Seq<char>>,
    at: int,
    rank: spec_fn(Seq<char>) -> Option<Rank>,
) -> bool {
    &&& items.no_duplicates()
    &&& forall|r: Rank| #[trigger]
        items.contains(r) <==> walk.take(at).contains(r.name) && rank(r.name) == Some(r)
}

/// Gathering one more name of a walk.
pub proof fn lemma_gather(
    items: Seq<Rank>,
    walk: Seq<Seq<char>>,
    at: int,
    rank: spec_fn(Seq<char>) -> Option<Rank>,
)
    requires
        0 <= at < walk.len(),
        walk.no_duplicates(),
        gathered(items, walk, at, rank),
        rank(walk[at]) matches Some(r) ==> r.name == walk[at],
    ensures
        rank(walk[at]) is None ==> gathered(items, walk, at + 1, rank),
        rank(walk[at]) matches Some(r) ==> gathered(items.push(r), walk, at + 1, rank),
{
    let name = walk[at];
    let had = walk.take(at);
    let has = walk.take(at + 1);
    assert(has =~= had.push(name));
    assert forall|n: Seq<char>| #[trigger] has.contains(n) <==> had.contains(n) || n == name by {
        if had.contains(n) {
            let k = choose|k: int| 0 <= k < had.len() && had[k] == n;
            assert(has[k] == n);
        }
        assert(has[at] == name);
    }
    assert(!had.contains(name)) by {
        if had.contains(name) {
            let k = choose|k: int| 0 <= k < had.len() && had[k] == name;
            assert(walk[k] == walk[at]);
        }
    }
    if let Some(r) = rank(name) {
        let next = items.push(r);
        assert(!items.contains(r));
        assert forall|x: Rank| #[trigger]
            next.contains(x) <==> has.contains(x.name) && rank(x.name) == Some(x) by {
            if items.contains(x) {
                let k = choose|k: int| 0 <= k < items.len() && items[k] == x;
                assert(next[k] == x);
            }
            assert(next[items.len() as int] == r);
            if next.contains(x) {
                let k = choose|k: int| 0 <= k < next.len() && next[k] == x;
                if k < items.len() {
                    assert(items[k] == x);
                }
            }
            assert(has.contains(x.name) <==> had.contains(x.name) || x.name == name);
            assert(items.contains(x) <==> had.contains(x.name) && rank(x.name) == Some(x));
        }
        assert(next.no_duplicates()) by {
            assert forall|i: int, j: int|
                0 <= i < next.len() && 0 <= j < next.len() && i != j implies next[i]
                != next[j] by {
                if i < items.len() && j < items.len() {
                    assert(items[i] != items[j]);
                } else if i < items.len() {
                    assert(items.contains(items[i]));
                } else {
                    assert(items.contains(items[j]));
                }
            }
        }
    } else {
        assert forall|x: Rank| #[trigger]
            items.contains(x) <==> has.contains(x.name) && rank(x.name) == Some(x) by {
            assert(has.contains(x.name) <==> had.contains(x.name) || x.name == name);
        }
    }
}

/// Nothing has been gathered before the walk starts.
pub proof fn lemma_gather_start(
    walk: Seq<Seq<char>>,
    rank: spec_fn(Seq<char>) -> Option<Rank>,
)
    ensures
        gathered(Seq::<Rank>::empty(), walk, 0, rank),
{
}

/// A finished walk has gathered the ranks of all its names.
pub proof fn lemma_gather_end(
    items: Seq<Rank>,
    walk: Seq<Seq<char>>,
    rank: spec_fn(Seq<char>) -> Option<Rank>,
)
    requires
        gathered(items, walk, walk.len() as int, rank),
    ensures
        items.to_set() == ranks_of(walk.to_set(), rank),
{
    assert(walk.take(walk.len() as int) =~= walk);
    assert(items.to_set() =~= ranks_of(walk.to_set(), rank));
}

/// The ranks of a pushed name.
pub proof fn lemma_ranks_push(items: Seq<Ranked>, item: Ranked)
    ensures
        ranks(items.push(item)) == ranks(items).push(item@),
{
    assert(ranks(items.push(item)) =~= ranks(items).push(item@));
}

} // verus!
