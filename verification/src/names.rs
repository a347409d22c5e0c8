//! Queues of names.
use std::collections::VecDeque;
use vstd::hash_set::StringHashSet;
use vstd::prelude::*;

use crate::text::{is_text_before, lemma_text_order};

verus! {

/// The view of an optional name.
pub open spec fn name_of(name: Option<String>) -> Option<Seq<char>> {
    match name {
        Some(name) => Some(name@),
        None => None,
    }
}

/// Whether an optional name is the given one.
pub fn is_name(held: &Option<String>, name: &str) -> (same: bool)
    ensures
        same == (name_of(*held) == Some(name@)),
{
    match held {
        Some(held) => same_text(held.as_str(), name),
        None => false,
    }
}

/// Whether two names are the same.
pub fn same_text(a: &str, b: &str) -> (same: bool)
    ensures
        same == (a@ == b@),
{
    proof {
        lemma_text_order(a@, b@, a@);
    }
    !is_text_before(a, b) && !is_text_before(b, a)
}

/// A first-in first-out queue of names.
pub struct NameQueue {
    items: VecDeque<String>,
}

impl View for NameQueue {
    type V = Seq<Seq<char>>;

    closed spec fn view(&self) -> Seq<Seq<char>> {
        Seq::new(self.items@.len(), |at: int| self.items@[at]@)
    }
}

impl NameQueue {
    pub fn new() -> (queue: Self)
        ensures
            queue@ == Seq::<Seq<char>>::empty(),
    {
        let queue = NameQueue { items: VecDeque::new() };
        assert(queue@ =~= Seq::<Seq<char>>::empty());
        queue
    }

    pub fn len(&self) -> (count: usize)
        ensures
            count == self@.len(),
    {
        self.items.len()
    }

    pub fn get(&self, at: usize) -> (name: &String)
        requires
            at < self@.len(),
        ensures
            name@ == self@[at as int],
    {
        &self.items[at]
    }

    pub fn front(&self) -> (name: Option<&String>)
        ensures
            match name {
                Some(name) => self@.len() > 0 && name@ == self@[0],
                None => self@.len() == 0,
            },
    {
        if self.items.len() == 0 {
            None
        } else {
            Some(&self.items[0])
        }
    }

    pub fn push_back(&mut self, name: String)
        ensures
            final(self)@ == old(self)@.push(name@),
    {
        self.items.push_back(name);
        assert(self@ =~= old(self)@.push(name@));
    }

    pub fn pop_front(&mut self) -> (name: Option<String>)
        ensures
            match name {
                Some(name) => old(self)@.len() > 0 && name@ == old(self)@[0] && final(self)@
                    == old(self)@.drop_first(),
                None => old(self)@.len() == 0 && final(self)@ == old(self)@,
            },
    {
        let name = self.items.pop_front();
        proof {
            if name is Some {
                assert(self@ =~= old(self)@.drop_first());
            }
        }
        name
    }

    /// Keep the names that are in `kept`, in their order.
    pub fn retain(&mut self, kept: &StringHashSet)
        ensures
            final(self)@ == old(self)@.filter(|name: Seq<char>| kept@.contains(name)),
    {
        let ghost pred = |name: Seq<char>| kept@.contains(name);
        let ghost whole = self@;
        let mut left = NameQueue::new();
        let count: usize = self.items.len();
        assert(whole.skip(0) =~= whole);
        assert(left@ + whole.filter(pred) =~= whole.filter(pred));
        for at in 0..count
            invariant
                count == whole.len(),
                self@ == whole.skip(at as int),
                pred == (|name: Seq<char>| kept@.contains(name)),
                left@ + whole.skip(at as int).filter(pred) == whole.filter(pred),
        {
            let ghost rest = whole.skip(at as int);
            let ghost had = left@;
            let head = self.pop_front();
            assert(rest.drop_first() =~= whole.skip(at + 1));
            proof {
                lemma_filter_head(rest, pred);
            }
            if let Some(name) = head {
                if kept.contains(name.as_str()) {
                    left.push_back(name);
                    assert(left@ + rest.drop_first().filter(pred) =~= had + rest.filter(pred));
                }
            }
        }
        proof {
            assert(whole.skip(count as int) =~= Seq::<Seq<char>>::empty());
            reveal(Seq::filter);
            assert(left@ =~= whole.filter(pred));
        }
        *self = left;
    }
}

/// Filtering a sequence head first.
pub proof fn lemma_filter_head<A>(items: Seq<A>, pred: spec_fn(A) -> bool)
    requires
        items.len() > 0,
    ensures
        items.filter(pred) == (if pred(items[0]) {
            seq![items[0]] + items.drop_first().filter(pred)
        } else {
            items.drop_first().filter(pred)
        }),
{
    assert(items =~= seq![items[0]] + items.drop_first());
    Seq::filter_distributes_over_add(seq![items[0]], items.drop_first(), pred);
    reveal(Seq::filter);
    let single = seq![items[0]];
    assert(single.drop_last() =~= Seq::<A>::empty());
    assert(Seq::<A>::empty().filter(pred) =~= Seq::<A>::empty());
    assert(single.filter(pred) =~= (if pred(items[0]) {
        single
    } else {
        Seq::<A>::empty()
    }));
    assert(Seq::<A>::empty() + items.drop_first().filter(pred)
        =~= items.drop_first().filter(pred));
}

} // verus!
