//! Programs in their order of arrival, and sets of sessions in theirs.
use indexmap::{IndexMap, IndexSet};
use std::collections::hash_map::RandomState;
use std::collections::VecDeque;
use vstd::prelude::*;

use crate::policy_queue::indexed::{
    has_name, map_entries, map_get, map_get_index, map_insert, map_len, map_new, map_shift_remove,
    names_get_index, names_insert, names_len, names_new, names_shift_remove, numbers_insert,
    numbers_new, numbers_shift_remove, numbers_shift_remove_index, place_of_name, program_of,
    set_names, set_numbers, with_item, with_program, without_item, without_program, ProgramEntry,
};
use crate::ranking::{lemma_ranks_push, listing, ranks, sort_ranked, Rank, Ranked};
use crate::thunderagent::order::{Keys, ProgramOrder};
use crate::thunderagent::program::Program;

verus! {

/// No name has two entries.
pub open spec fn distinct(entries: Seq<ProgramEntry>) -> bool {
    forall|i: int, j: int|
        0 <= i < j < entries.len() ==> (#[trigger] entries[i]).0 != (#[trigger] entries[j]).0
}

/// The names of entries.
pub open spec fn entry_names(entries: Seq<ProgramEntry>) -> Seq<Seq<char>> {
    entries.map_values(|entry: ProgramEntry| entry.0)
}

/// The ranks of the names that have a program with a key: by key, and then by place.
pub open spec fn placed_ranks(
    names: Seq<Seq<char>>,
    entries: Seq<ProgramEntry>,
    keys: Keys,
) -> Set<Rank> {
    Set::new(|rank: Rank| rank.place < names.len() && placed(names, entries, keys, rank))
}

/// Whether a rank is that of the name at its place.
pub open spec fn placed(
    names: Seq<Seq<char>>,
    entries: Seq<ProgramEntry>,
    keys: Keys,
    rank: Rank,
) -> bool {
    &&& rank.name == names[rank.place as int]
    &&& has_name(entries, rank.name)
    &&& keys(rank.name, program_of(entries, rank.name)->0) == Some((rank.major, rank.minor))
}

/// The names that have a program with a key, by key and then by place.
pub open spec fn placed_order(
    names: Seq<Seq<char>>,
    entries: Seq<ProgramEntry>,
    keys: Keys,
) -> Seq<Rank> {
    listing(placed_ranks(names, entries, keys))
}

/// An entry is where its name is found.
pub proof fn lemma_entry(entries: Seq<ProgramEntry>, at: int)
    requires
        distinct(entries),
        0 <= at < entries.len(),
    ensures
        has_name(entries, entries[at].0),
        place_of_name(entries, entries[at].0) == at,
        program_of(entries, entries[at].0) == Some(entries[at].1),
{
    assert(has_name(entries, entries[at].0));
    let found = place_of_name(entries, entries[at].0);
    assert(entries[found].0 == entries[at].0);
}

/// Setting a program changes no other.
pub proof fn lemma_with_program(entries: Seq<ProgramEntry>, name: Seq<char>, program: Program)
    requires
        distinct(entries),
    ensures
        distinct(with_program(entries, name, program)),
        program_of(with_program(entries, name, program), name) == Some(program),
        forall|other: Seq<char>|
            other != name ==> #[trigger] program_of(with_program(entries, name, program), other)
                == program_of(entries, other),
{
    let next = with_program(entries, name, program);
    if has_name(entries, name) {
        lemma_entry(entries, place_of_name(entries, name));
    }
    assert forall|i: int, j: int| 0 <= i < j < next.len() implies (#[trigger] next[i]).0 != (
    #[trigger] next[j]).0 by {
        if j < entries.len() {
            assert(entries[i].0 != entries[j].0);
        } else {
            assert(next[i] == entries[i]);
        }
    }
    let at = if has_name(entries, name) {
        place_of_name(entries, name)
    } else {
        entries.len() as int
    };
    lemma_entry(next, at);
    assert forall|other: Seq<char>| other != name implies #[trigger] program_of(next, other)
        == program_of(entries, other) by {
        if has_name(entries, other) {
            let k = place_of_name(entries, other);
            lemma_entry(entries, k);
            assert(next[k] == entries[k]);
            lemma_entry(next, k);
        } else if has_name(next, other) {
            let k = place_of_name(next, other);
            assert(next[k] == entries[k]);
        }
    }
}

/// Taking a program out changes no other.
pub proof fn lemma_without_program(entries: Seq<ProgramEntry>, name: Seq<char>)
    requires
        distinct(entries),
    ensures
        distinct(without_program(entries, name)),
        !has_name(without_program(entries, name), name),
        forall|other: Seq<char>|
            other != name ==> #[trigger] program_of(without_program(entries, name), other)
                == program_of(entries, other),
{
    let next = without_program(entries, name);
    if has_name(entries, name) {
        let at = place_of_name(entries, name);
        lemma_entry(entries, at);
        assert forall|i: int, j: int| 0 <= i < j < next.len() implies (#[trigger] next[i]).0 != (
        #[trigger] next[j]).0 by {
            let x = if i < at {
                i
            } else {
                i + 1
            };
            let y = if j < at {
                j
            } else {
                j + 1
            };
            assert(next[i] == entries[x] && next[j] == entries[y]);
        }
        assert forall|k: int| 0 <= k < next.len() implies (#[trigger] next[k]).0 != name by {
            let from = if k < at {
                k
            } else {
                k + 1
            };
            assert(next[k] == entries[from]);
        }
        assert forall|other: Seq<char>| other != name implies #[trigger] program_of(next, other)
            == program_of(entries, other) by {
            if has_name(entries, other) {
                let k = place_of_name(entries, other);
                lemma_entry(entries, k);
                let moved = if k < at {
                    k
                } else {
                    k - 1
                };
                assert(next[moved] == entries[k]);
                lemma_entry(next, moved);
            } else if has_name(next, other) {
                let k = place_of_name(next, other);
                let from = if k < at {
                    k
                } else {
                    k + 1
                };
                assert(next[k] == entries[from]);
            }
        }
    }
}

/// One more name of a walk, with its rank.
proof fn lemma_place_next(
    found: Seq<Rank>,
    names: Seq<Seq<char>>,
    entries: Seq<ProgramEntry>,
    keys: Keys,
    at: int,
)
    requires
        0 <= at < names.len(),
        names.len() <= u64::MAX,
        walked(found, names, entries, keys, at),
    ensures
        !has_name(entries, names[at]) ==> walked(found, names, entries, keys, at + 1),
        has_name(entries, names[at]) ==> match keys(
            names[at],
            program_of(entries, names[at])->0,
        ) {
            Some((major, minor)) => walked(
                found.push(Rank { major, minor, place: at as u64, name: names[at] }),
                names,
                entries,
                keys,
                at + 1,
            ),
            None => walked(found, names, entries, keys, at + 1),
        },
{
    if has_name(entries, names[at]) {
        if let Some((major, minor)) = keys(names[at], program_of(entries, names[at])->0) {
            let rank = Rank { major, minor, place: at as u64, name: names[at] };
            let next = found.push(rank);
            assert forall|r: Rank| #[trigger] next.contains(r) <==> r.place < at + 1 && placed(
                names,
                entries,
                keys,
                r,
            ) by {
                if found.contains(r) {
                    let k = choose|k: int| 0 <= k < found.len() && found[k] == r;
                    assert(next[k] == r);
                }
                assert(next[found.len() as int] == rank);
                if next.contains(r) {
                    let k = choose|k: int| 0 <= k < next.len() && next[k] == r;
                    if k < found.len() {
                        assert(found[k] == r);
                    }
                }
                assert(found.contains(r) <==> r.place < at && placed(names, entries, keys, r));
            }
            assert forall|i: int, j: int|
                0 <= i < next.len() && 0 <= j < next.len() && i != j implies next[i] != next[j] by {
                if i < found.len() {
                    assert(found.contains(found[i]));
                }
                if j < found.len() {
                    assert(found.contains(found[j]));
                }
            }
        } else {
            assert forall|r: Rank| #[trigger] found.contains(r) <==> r.place < at + 1 && placed(
                names,
                entries,
                keys,
                r,
            ) by {
            }
        }
    }
}

/// `found` holds, once each, the ranks of the first `at` names of a walk.
spec fn walked(
    found: Seq<Rank>,
    names: Seq<Seq<char>>,
    entries: Seq<ProgramEntry>,
    keys: Keys,
    at: int,
) -> bool {
    &&& found.no_duplicates()
    &&& forall|r: Rank| #[trigger]
        found.contains(r) <==> r.place < at && placed(names, entries, keys, r)
}

/// Programs by session, in their order of arrival.
pub struct ProgramIndex {
    map: IndexMap<String, Program, RandomState>,
}

impl View for ProgramIndex {
    type V = Seq<ProgramEntry>;

    closed spec fn view(&self) -> Seq<ProgramEntry> {
        map_entries(self.map)
    }
}

impl ProgramIndex {
    pub fn new() -> (programs: Self)
        ensures
            programs@ == Seq::<ProgramEntry>::empty(),
            distinct(programs@),
    {
        ProgramIndex { map: map_new() }
    }

    pub fn get(&self, name: &str) -> (program: Option<Program>)
        ensures
            program == program_of(self@, name@),
    {
        map_get(&self.map, name)
    }

    /// Set a session's program.
    pub fn insert(&mut self, name: &str, program: Program)
        ensures
            final(self)@ == with_program(old(self)@, name@, program),
            distinct(old(self)@) ==> distinct(final(self)@),
    {
        proof {
            if distinct(self@) {
                lemma_with_program(self@, name@, program);
            }
        }
        map_insert(&mut self.map, name.to_owned(), program);
    }

    /// Take a session's program out.
    pub fn remove(&mut self, name: &str)
        ensures
            final(self)@ == without_program(old(self)@, name@),
            distinct(old(self)@) ==> distinct(final(self)@),
    {
        proof {
            if distinct(self@) {
                lemma_without_program(self@, name@);
            }
        }
        map_shift_remove(&mut self.map, name);
    }

    pub fn len(&self) -> (count: usize)
        ensures
            count == self@.len(),
    {
        map_len(&self.map)
    }

    /// The session at a position and its program.
    pub fn entry(&self, at: usize) -> (entry: Option<(&String, &Program)>)
        ensures
            match entry {
                Some((name, program)) => at < self@.len() && self@[at as int] == (name@, *program),
                None => at >= self@.len(),
            },
    {
        map_get_index(&self.map, at)
    }

    /// The sessions whose programs have a key, by key and then in order of arrival.
    pub fn ordered<O: ProgramOrder>(&self, order: &O) -> (sorted: VecDeque<Ranked>)
        requires
            distinct(self@),
            order.ready(),
        ensures
            ranks(sorted@) == placed_order(entry_names(self@), self@, order.keys()),
    {
        let ghost names = entry_names(self@);
        let ghost keys = order.keys();
        let mut found: VecDeque<Ranked> = VecDeque::new();
        let count: usize = self.len();
        assert(ranks(found@) =~= Seq::<Rank>::empty());
        for at in 0..count
            invariant
                distinct(self@),
                order.ready(),
                count == self@.len(),
                names == entry_names(self@),
                keys == order.keys(),
                walked(ranks(found@), names, self@, keys, at as int),
        {
            if let Some((name, program)) = self.entry(at) {
                proof {
                    lemma_entry(self@, at as int);
                    lemma_place_next(ranks(found@), names, self@, keys, at as int);
                }
                if let Some((major, minor)) = order.key(name.as_str(), program) {
                    let item = Ranked { major, minor, place: at as u64, name: name.clone() };
                    proof {
                        lemma_ranks_push(found@, item);
                    }
                    found.push_back(item);
                }
            }
        }
        assert(ranks(found@).to_set() =~= placed_ranks(names, self@, keys));
        sort_ranked(found)
    }
}

/// Sessions in the order in which they joined.
pub struct SessionSet {
    set: IndexSet<String, RandomState>,
}

impl View for SessionSet {
    type V = Seq<Seq<char>>;

    closed spec fn view(&self) -> Seq<Seq<char>> {
        set_names(self.set)
    }
}

impl SessionSet {
    pub fn new() -> (sessions: Self)
        ensures
            sessions@ == Seq::<Seq<char>>::empty(),
    {
        SessionSet { set: names_new() }
    }

    pub fn insert(&mut self, name: &str)
        ensures
            final(self)@ == with_item(old(self)@, name@),
    {
        names_insert(&mut self.set, name.to_owned());
    }

    pub fn remove(&mut self, name: &str)
        ensures
            final(self)@ == without_item(old(self)@, name@),
    {
        names_shift_remove(&mut self.set, name);
    }

    pub fn len(&self) -> (count: usize)
        ensures
            count == self@.len(),
    {
        names_len(&self.set)
    }

    /// The sessions whose programs have a key, by key and then in the order of the set.
    pub fn ordered<O: ProgramOrder>(&self, programs: &ProgramIndex, order: &O) -> (sorted: VecDeque<
        Ranked,
    >)
        requires
            order.ready(),
        ensures
            ranks(sorted@) == placed_order(self@, programs@, order.keys()),
    {
        let ghost names = self@;
        let ghost keys = order.keys();
        let mut found: VecDeque<Ranked> = VecDeque::new();
        let count: usize = self.len();
        assert(ranks(found@) =~= Seq::<Rank>::empty());
        for at in 0..count
            invariant
                order.ready(),
                count == self@.len(),
                names == self@,
                keys == order.keys(),
                walked(ranks(found@), names, programs@, keys, at as int),
        {
            if let Some(name) = names_get_index(&self.set, at) {
                proof {
                    lemma_place_next(ranks(found@), names, programs@, keys, at as int);
                }
                if let Some(program) = programs.get(name.as_str()) {
                    if let Some((major, minor)) = order.key(name.as_str(), &program) {
                        let item = Ranked { major, minor, place: at as u64, name: name.clone() };
                        proof {
                            lemma_ranks_push(found@, item);
                        }
                        found.push_back(item);
                    }
                }
            }
        }
        assert(ranks(found@).to_set() =~= placed_ranks(names, programs@, keys));
        sort_ranked(found)
    }
}

/// Request ids in the order in which they joined.
pub struct RequestSet {
    set: IndexSet<u64, RandomState>,
}

impl View for RequestSet {
    type V = Seq<u64>;

    closed spec fn view(&self) -> Seq<u64> {
        set_numbers(self.set)
    }
}

impl RequestSet {
    pub fn new() -> (ids: Self)
        ensures
            ids@ == Seq::<u64>::empty(),
    {
        RequestSet { set: numbers_new() }
    }

    pub fn insert(&mut self, id: u64)
        ensures
            final(self)@ == with_item(old(self)@, id),
    {
        numbers_insert(&mut self.set, id);
    }

    pub fn remove(&mut self, id: u64)
        ensures
            final(self)@ == without_item(old(self)@, id),
    {
        numbers_shift_remove(&mut self.set, id);
    }

    /// Take the first id out.
    pub fn take_first(&mut self) -> (id: Option<u64>)
        ensures
            match id {
                Some(id) => old(self)@.len() > 0 && id == old(self)@[0] && final(self)@
                    == old(self)@.remove(0),
                None => old(self)@.len() == 0 && final(self)@ == old(self)@,
            },
    {
        numbers_shift_remove_index(&mut self.set, 0)
    }
}

} // verus!
