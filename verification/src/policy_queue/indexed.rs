//! The insertion-ordered collections of the `indexmap` crate, as far as the policy needs them.
use indexmap::{IndexMap, IndexSet};
use std::collections::hash_map::RandomState;
use vstd::prelude::*;

use crate::thunderagent::program::Program;

verus! {

/// `indexmap::IndexMap`.
#[verifier::external_type_specification]
#[verifier::external_body]
#[verifier::reject_recursive_types(K)]
#[verifier::reject_recursive_types(V)]
#[verifier::reject_recursive_types(S)]
pub struct ExIndexMap<K, V, S>(IndexMap<K, V, S>);

/// `indexmap::IndexSet`.
#[verifier::external_type_specification]
#[verifier::external_body]
#[verifier::reject_recursive_types(T)]
#[verifier::reject_recursive_types(S)]
pub struct ExIndexSet<T, S>(IndexSet<T, S>);

/// A session's name and its program.
pub type ProgramEntry = (Seq<char>, Program);

/// The entries of a map of programs, in insertion order.
pub uninterp spec fn map_entries(
    map: IndexMap<String, Program, RandomState>,
) -> Seq<(Seq<char>, Program)>;

/// The names in a set, in insertion order.
pub uninterp spec fn set_names(set: IndexSet<String, RandomState>) -> Seq<Seq<char>>;

/// The numbers in a set, in insertion order.
pub uninterp spec fn set_numbers(set: IndexSet<u64, RandomState>) -> Seq<u64>;

/// Whether a name has an entry.
pub open spec fn has_name(entries: Seq<ProgramEntry>, name: Seq<char>) -> bool {
    exists|at: int| 0 <= at < entries.len() && (#[trigger] entries[at]).0 == name
}

/// Where the entry of a name is.
pub open spec fn place_of_name(entries: Seq<ProgramEntry>, name: Seq<char>) -> int {
    choose|at: int| 0 <= at < entries.len() && (#[trigger] entries[at]).0 == name
}

/// The program of a name.
pub open spec fn program_of(entries: Seq<ProgramEntry>, name: Seq<char>) -> Option<Program> {
    if has_name(entries, name) {
        Some(entries[place_of_name(entries, name)].1)
    } else {
        None
    }
}

/// The entries with a name's program set: in its place, or else at the end.
pub open spec fn with_program(
    entries: Seq<ProgramEntry>,
    name: Seq<char>,
    program: Program,
) -> Seq<ProgramEntry> {
    if has_name(entries, name) {
        entries.update(place_of_name(entries, name), (name, program))
    } else {
        entries.push((name, program))
    }
}

/// The entries without that of a name, the others in their order.
pub open spec fn without_program(entries: Seq<ProgramEntry>, name: Seq<char>) -> Seq<ProgramEntry> {
    if has_name(entries, name) {
        entries.remove(place_of_name(entries, name))
    } else {
        entries
    }
}

/// A sequence with an item at the end, unless it is in it already.
pub open spec fn with_item<T>(items: Seq<T>, item: T) -> Seq<T> {
    if items.contains(item) {
        items
    } else {
        items.push(item)
    }
}

/// A sequence without an item, the others in their order.
pub open spec fn without_item<T>(items: Seq<T>, item: T) -> Seq<T> {
    if items.contains(item) {
        items.remove(items.index_of(item))
    } else {
        items
    }
}

/// `IndexMap::new`: an empty map.
#[verifier::external_body]
pub(crate) fn map_new() -> (map: IndexMap<String, Program, RandomState>)
    ensures
        map_entries(map) == Seq::<(Seq<char>, Program)>::empty(),
{
    IndexMap::new()
}

/// `IndexMap::get`: the value of a key.
#[verifier::external_body]
pub(crate) fn map_get(map: &IndexMap<String, Program, RandomState>, name: &str) -> (program: Option<
    Program,
>)
    ensures
        program == program_of(map_entries(*map), name@),
{
    map.get(name).copied()
}

/// `IndexMap::insert`: sets the value of a key, in the key's place or else last in order. The
/// result is the key's value before.
#[verifier::external_body]
pub(crate) fn map_insert(
    map: &mut IndexMap<String, Program, RandomState>,
    name: String,
    program: Program,
) -> (before: Option<Program>)
    ensures
        before == program_of(map_entries(*old(map)), name@),
        map_entries(*final(map)) == with_program(map_entries(*old(map)), name@, program),
{
    map.insert(name, program)
}

/// `IndexMap::shift_remove`: takes a key out and keeps the order of the others.
#[verifier::external_body]
pub(crate) fn map_shift_remove(map: &mut IndexMap<String, Program, RandomState>, name: &str) -> (program:
    Option<Program>)
    ensures
        program == program_of(map_entries(*old(map)), name@),
        map_entries(*final(map)) == without_program(map_entries(*old(map)), name@),
{
    map.shift_remove(name)
}

/// `IndexMap::len`: the number of entries.
#[verifier::external_body]
pub(crate) fn map_len(map: &IndexMap<String, Program, RandomState>) -> (count: usize)
    ensures
        count == map_entries(*map).len(),
{
    map.len()
}

/// `IndexMap::get_index`: the entry at a position of the order.
#[verifier::external_body]
pub(crate) fn map_get_index(map: &IndexMap<String, Program, RandomState>, at: usize) -> (entry: Option<
    (&String, &Program),
>)
    ensures
        match entry {
            Some((name, program)) => at < map_entries(*map).len() && map_entries(*map)[at as int]
                == (name@, *program),
            None => at >= map_entries(*map).len(),
        },
{
    map.get_index(at)
}

/// `IndexSet::new`: an empty set of names.
#[verifier::external_body]
pub(crate) fn names_new() -> (set: IndexSet<String, RandomState>)
    ensures
        set_names(set) == Seq::<Seq<char>>::empty(),
{
    IndexSet::new()
}

/// `IndexSet::insert`: puts a name last in order, unless it is in the set already. The result is
/// whether it was not.
#[verifier::external_body]
pub(crate) fn names_insert(set: &mut IndexSet<String, RandomState>, name: String) -> (added: bool)
    ensures
        added == !set_names(*old(set)).contains(name@),
        set_names(*final(set)) == with_item(set_names(*old(set)), name@),
{
    set.insert(name)
}

/// `IndexSet::shift_remove`: takes a name out and keeps the order of the others. The result is
/// whether it was in the set.
#[verifier::external_body]
pub(crate) fn names_shift_remove(set: &mut IndexSet<String, RandomState>, name: &str) -> (removed:
    bool)
    ensures
        removed == set_names(*old(set)).contains(name@),
        set_names(*final(set)) == without_item(set_names(*old(set)), name@),
{
    set.shift_remove(name)
}

/// `IndexSet::len`: the number of names.
#[verifier::external_body]
pub(crate) fn names_len(set: &IndexSet<String, RandomState>) -> (count: usize)
    ensures
        count == set_names(*set).len(),
{
    set.len()
}

/// `IndexSet::get_index`: the name at a position of the order.
#[verifier::external_body]
pub(crate) fn names_get_index(set: &IndexSet<String, RandomState>, at: usize) -> (name: Option<
    &String,
>)
    ensures
        match name {
            Some(name) => at < set_names(*set).len() && set_names(*set)[at as int] == name@,
            None => at >= set_names(*set).len(),
        },
{
    set.get_index(at)
}

/// `IndexSet::new`: an empty set of numbers.
#[verifier::external_body]
pub(crate) fn numbers_new() -> (set: IndexSet<u64, RandomState>)
    ensures
        set_numbers(set) == Seq::<u64>::empty(),
{
    IndexSet::new()
}

/// `IndexSet::insert`: puts a number last in order, unless it is in the set already. The result is
/// whether it was not.
#[verifier::external_body]
pub(crate) fn numbers_insert(set: &mut IndexSet<u64, RandomState>, number: u64) -> (added: bool)
    ensures
        added == !set_numbers(*old(set)).contains(number),
        set_numbers(*final(set)) == with_item(set_numbers(*old(set)), number),
{
    set.insert(number)
}

/// `IndexSet::shift_remove`: takes a number out and keeps the order of the others. The result is
/// whether it was in the set.
#[verifier::external_body]
pub(crate) fn numbers_shift_remove(set: &mut IndexSet<u64, RandomState>, number: u64) -> (removed:
    bool)
    ensures
        removed == set_numbers(*old(set)).contains(number),
        set_numbers(*final(set)) == without_item(set_numbers(*old(set)), number),
{
    set.shift_remove(&number)
}

/// `IndexSet::shift_remove_index`: takes the number at a position out and keeps the order of the
/// others.
#[verifier::external_body]
pub(crate) fn numbers_shift_remove_index(set: &mut IndexSet<u64, RandomState>, at: usize) -> (number:
    Option<u64>)
    ensures
        match number {
            Some(number) => at < set_numbers(*old(set)).len() && number == set_numbers(
                *old(set),
            )[at as int] && set_numbers(*final(set)) == set_numbers(*old(set)).remove(at as int),
            None => at >= set_numbers(*old(set)).len() && set_numbers(*final(set)) == set_numbers(
                *old(set),
            ),
        },
{
    set.shift_remove_index(at)
}

} // verus!
