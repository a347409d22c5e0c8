//! Orders in which programs are taken.
use std::collections::VecDeque;
use vstd::prelude::*;

use crate::ranking::{
    first_rank, gathered, is_first_rank, lemma_first_rank, lemma_first_rank_grows, lemma_gather,
    lemma_gather_end, lemma_gather_start, lemma_listing_exists, lemma_ranks_finite,
    lemma_ranks_push, listing, ranks, ranks_before, ranks_of, sort_ranked, Rank, Ranked,
};
use crate::thunderagent::ledger::{Ledger, ProgramLedger};
use crate::thunderagent::program::Program;

verus! {

/// The keys by which sessions with their programs are ordered; one without a key is left out.
pub type Keys = spec_fn(Seq<char>, Program) -> Option<(u64, u64)>;

/// The rank of a session's program under the given keys.
pub open spec fn rank_by(programs: Map<Seq<char>, Program>, keys: Keys) -> spec_fn(
    Seq<char>,
) -> Option<Rank> {
    |name: Seq<char>|
        match keys(name, programs[name]) {
            Some((major, minor)) => Some(Rank { major, minor, place: 0, name }),
            None => None,
        }
}

impl Ledger {
    /// The sessions that have a key, by key and then by name.
    pub open spec fn order_by(self, keys: Keys) -> Seq<Rank> {
        listing(self.ranks_by(keys))
    }

    /// The ranks of all sessions that have a key.
    pub open spec fn ranks_by(self, keys: Keys) -> Set<Rank> {
        ranks_of(self.programs.dom(), rank_by(self.programs, keys))
    }

    /// The first session by key and then by name.
    pub open spec fn first_by(self, keys: Keys) -> Option<Rank> {
        if exists|first: Rank| is_first_rank(first, self.ranks_by(keys)) {
            Some(first_rank(self.ranks_by(keys)))
        } else {
            None
        }
    }
}

/// Whether a session has a program with a key.
pub open spec fn has_key(ledger: Ledger, keys: Keys, name: Seq<char>) -> bool {
    ledger.programs.contains_key(name) && keys(name, ledger.programs[name]) is Some
}

/// An order holds exactly the sessions that have a key.
pub proof fn lemma_order(ledger: Ledger, keys: Keys)
    requires
        ledger.programs.dom().finite(),
    ensures
        forall|at: int|
            0 <= at < ledger.order_by(keys).len() ==> has_key(
                ledger,
                keys,
                (#[trigger] ledger.order_by(keys)[at]).name,
            ),
        forall|name: Seq<char>| #[trigger]
            has_key(ledger, keys, name) ==> exists|at: int|
                0 <= at < ledger.order_by(keys).len() && (#[trigger] ledger.order_by(
                    keys,
                )[at]).name == name,
{
    let set = ledger.ranks_by(keys);
    let order = ledger.order_by(keys);
    let rank = rank_by(ledger.programs, keys);
    lemma_ranks_finite(ledger.programs.dom(), rank);
    lemma_listing_exists(set);
    assert forall|at: int| 0 <= at < order.len() implies has_key(
        ledger,
        keys,
        (#[trigger] order[at]).name,
    ) by {
        assert(order.to_set().contains(order[at]));
    }
    assert forall|name: Seq<char>| #[trigger] has_key(ledger, keys, name) implies exists|at: int|
        0 <= at < order.len() && (#[trigger] order[at]).name == name by {
        let found = rank(name)->0;
        assert(set.contains(found));
        assert(order.contains(found));
    }
}

/// The first session by key has a key.
pub proof fn lemma_first(ledger: Ledger, keys: Keys)
    ensures
        ledger.first_by(keys) matches Some(first) ==> has_key(ledger, keys, first.name),
{
    if let Some(first) = ledger.first_by(keys) {
        assert(is_first_rank(first, ledger.ranks_by(keys)));
    }
}

proof fn lemma_one_more_name(
    walk: Seq<Seq<char>>,
    at: int,
    rank: spec_fn(Seq<char>) -> Option<Rank>,
)
    requires
        0 <= at < walk.len(),
    ensures
        forall|r: Rank| #[trigger]
            ranks_of(walk.take(at + 1).to_set(), rank).contains(r) <==> ranks_of(
                walk.take(at).to_set(),
                rank,
            ).contains(r) || (r.name == walk[at] && rank(r.name) == Some(r)),
{
    let had = walk.take(at);
    let has = walk.take(at + 1);
    assert forall|r: Rank| #[trigger]
        ranks_of(has.to_set(), rank).contains(r) <==> ranks_of(had.to_set(), rank).contains(r) || (
    r.name == walk[at] && rank(r.name) == Some(r)) by {
        assert(has.contains(r.name) <==> had.contains(r.name) || r.name == walk[at]) by {
            if had.contains(r.name) {
                let k = choose|k: int| 0 <= k < had.len() && had[k] == r.name;
                assert(has[k] == r.name);
            }
            if has.contains(r.name) {
                let k = choose|k: int| 0 <= k < has.len() && has[k] == r.name;
                if k < at {
                    assert(had[k] == r.name);
                }
            }
            assert(has[at] == walk[at]);
        }
    }
}

/// A way to order programs.
pub trait ProgramOrder {
    /// The keys of the order.
    spec fn keys(&self) -> Keys;

    /// Whether the keys can be computed.
    spec fn ready(&self) -> bool;

    fn key(&self, name: &str, program: &Program) -> (key: Option<(u64, u64)>)
        requires
            self.ready(),
        ensures
            key == (self.keys())(name@, *program),
    ;
}

impl ProgramLedger {
    /// The sessions that have a key, in order.
    pub fn ordered<O: ProgramOrder>(&self, order: &O) -> (sorted: VecDeque<Ranked>)
        requires
            self.wf(),
            order.ready(),
        ensures
            ranks(sorted@) == self@.order_by(order.keys()),
            forall|at: int|
                0 <= at < sorted@.len() ==> has_key(
                    self@,
                    order.keys(),
                    (#[trigger] ranks(sorted@)[at]).name,
                ),
    {
        let ghost walk = self.walk();
        let ghost rank = rank_by(self@.programs, order.keys());
        let mut found: VecDeque<Ranked> = VecDeque::new();
        proof {
            self.lemma_walk();
            assert(ranks(found@) =~= Seq::<Rank>::empty());
            lemma_gather_start(walk, rank);
        }
        let count: usize = self.len();
        for at in 0..count
            invariant
                self.wf(),
                order.ready(),
                walk == self.walk(),
                walk.no_duplicates(),
                count == walk.len(),
                rank == rank_by(self@.programs, order.keys()),
                gathered(ranks(found@), walk, at as int, rank),
        {
            let (name, program) = self.entry_at(at);
            let key = order.key(name.as_str(), &program);
            proof {
                lemma_gather(ranks(found@), walk, at as int, rank);
            }
            if let Some((major, minor)) = key {
                let item = Ranked { major, minor, place: 0, name: name.clone() };
                proof {
                    lemma_ranks_push(found@, item);
                }
                found.push_back(item);
            }
        }
        proof {
            lemma_gather_end(ranks(found@), walk, rank);
        }
        let sorted = sort_ranked(found);
        assert forall|at: int| 0 <= at < sorted@.len() implies has_key(
            self@,
            order.keys(),
            (#[trigger] ranks(sorted@)[at]).name,
        ) by {
            let set = ranks(sorted@).to_set();
            assert(set.contains(ranks(sorted@)[at]));
        }
        sorted
    }

    /// The first session by key and then by name.
    pub fn first<O: ProgramOrder>(&self, order: &O) -> (best: Option<Ranked>)
        requires
            self.wf(),
            order.ready(),
        ensures
            self@.first_by(order.keys()) == (match best {
                Some(best) => Some(best@),
                None => None,
            }),
            best matches Some(best) ==> has_key(self@, order.keys(), best.name@),
    {
        let ghost walk = self.walk();
        let ghost rank = rank_by(self@.programs, order.keys());
        let ghost set = self@.ranks_by(order.keys());
        let mut best: Option<Ranked> = None;
        proof {
            self.lemma_walk();
        }
        let count: usize = self.len();
        for at in 0..count
            invariant
                self.wf(),
                order.ready(),
                walk == self.walk(),
                count == walk.len(),
                walk.to_set() == self@.programs.dom(),
                rank == rank_by(self@.programs, order.keys()),
                match best {
                    Some(best) => is_first_rank(
                        best@,
                        ranks_of(walk.take(at as int).to_set(), rank),
                    ),
                    None => ranks_of(walk.take(at as int).to_set(), rank) == Set::<Rank>::empty(),
                },
        {
            let (name, program) = self.entry_at(at);
            let key = order.key(name.as_str(), &program);
            let ghost had = ranks_of(walk.take(at as int).to_set(), rank);
            let ghost has = ranks_of(walk.take(at + 1).to_set(), rank);
            proof {
                lemma_one_more_name(walk, at as int, rank);
            }
            if let Some((major, minor)) = key {
                let item = Ranked { major, minor, place: 0, name: name.clone() };
                assert(has =~= had.insert(item@));
                let replace: bool = match &best {
                    Some(held) => {
                        proof {
                            lemma_first_rank_grows(held@, item@, had);
                        }
                        ranks_before(&item, held)
                    },
                    None => true,
                };
                if replace {
                    best = Some(item);
                }
            } else {
                assert(has =~= had);
            }
        }
        proof {
            assert(walk.take(walk.len() as int) =~= walk);
            assert(ranks_of(walk.to_set(), rank) == set);
            if best is Some {
                lemma_first_rank(best->0@, set);
                assert(set.contains(best->0@));
            }
        }
        best
    }
}

} // verus!
