//! Cache affinity with a fixed load gate: the least loaded of the workers with the largest cached
//! prefix, unless the pool is unbalanced or the prefix small.
use vstd::prelude::*;

use crate::choice::{best, is_pick, lemma_pick, pick, place_of, Candidates};
use crate::ieee::Real64;
use crate::selection::SelectionError;
use crate::sglang_cache_aware::picker::{imbalanced, is_imbalanced, RequestLoad};

verus! {

/// The bit pattern of 0.5: a larger cached fraction is worth an affinity.
pub const CACHE_AFFINITY_THRESHOLD: u64 = 0x3fe0_0000_0000_0000;

/// A larger spread of active requests makes a pool unbalanced, if the ratio does too.
pub const IMBALANCE_DELTA_REQUESTS: usize = 32;

/// The bit pattern of 1.1: the ratio that the host scales load limits by.
pub const IMBALANCE_RATIO: u64 = 0x3ff1_9999_9999_999a;

/// The cached prefix of a request on a worker: blocks, and their fraction of the request's blocks,
/// which the host computes.
#[derive(Clone, Copy, Debug, PartialEq, Eq, Structural)]
pub struct CacheOverlap {
    pub device_overlap_blocks: Real64,
    pub cached_fraction: Real64,
}

/// Of two rows the less loaded one, or else the earlier.
pub open spec fn fewer(load: Seq<RequestLoad>) -> spec_fn(int, int) -> bool {
    |a: int, b: int|
        load[a].active_requests < load[b].active_requests || (load[a].active_requests
            == load[b].active_requests && a < b)
}

/// Of two rows the more loaded one, or else the earlier.
pub open spec fn more(load: Seq<RequestLoad>) -> spec_fn(int, int) -> bool {
    |a: int, b: int|
        load[a].active_requests > load[b].active_requests || (load[a].active_requests
            == load[b].active_requests && a < b)
}

/// Of two rows that with the larger overlap, or else the earlier.
pub open spec fn larger(cache: Seq<CacheOverlap>) -> spec_fn(int, int) -> bool {
    |a: int, b: int|
        if cache[a].device_overlap_blocks != cache[b].device_overlap_blocks {
            cache[b].device_overlap_blocks.totally_before(cache[a].device_overlap_blocks)
        } else {
            a < b
        }
}

/// Every row.
pub open spec fn any_row() -> spec_fn(int) -> bool {
    |at: int| true
}

/// The rows with exactly the given overlap.
pub open spec fn same_overlap(cache: Seq<CacheOverlap>, overlap: Real64) -> spec_fn(int) -> bool {
    |at: int| cache[at].device_overlap_blocks.equals(overlap)
}

/// The least loaded of some rows.
pub open spec fn least_loaded_of(load: Seq<RequestLoad>, rows: spec_fn(int) -> bool) -> Option<int> {
    pick(load.len() as int, rows, fewer(load))
}

/// The row that is selected.
pub open spec fn selected_row(
    cache: Seq<CacheOverlap>,
    load: Seq<RequestLoad>,
    request_blocks: u64,
) -> Option<int> {
    let count = load.len() as int;
    match (
        pick(count, any_row(), fewer(load)),
        pick(count, any_row(), more(load)),
        pick(count, any_row(), larger(cache)),
    ) {
        (Some(least), Some(most), Some(longest)) if cache.len() == load.len() => if imbalanced(
            load[least],
            load[most],
            IMBALANCE_DELTA_REQUESTS,
        ) {
            Some(least)
        } else if request_blocks > 0 && (Real64 { bits: CACHE_AFFINITY_THRESHOLD }).below(
            cache[longest].cached_fraction,
        ) {
            least_loaded_of(load, same_overlap(cache, cache[longest].device_overlap_blocks))
        } else {
            Some(least)
        },
        _ => None,
    }
}

struct Fewest<'a> {
    load: &'a Vec<RequestLoad>,
}

struct Most<'a> {
    load: &'a Vec<RequestLoad>,
}

struct Longest<'a> {
    cache: &'a Vec<CacheOverlap>,
}

struct AmongSame<'a> {
    load: &'a Vec<RequestLoad>,
    cache: &'a Vec<CacheOverlap>,
    overlap: Real64,
}

fn has_fewer(load: &Vec<RequestLoad>, a: usize, b: usize) -> (less: bool)
    requires
        a < load@.len(),
        b < load@.len(),
    ensures
        less == fewer(load@)(a as int, b as int),
{
    load[a].active_requests < load[b].active_requests || (load[a].active_requests
        == load[b].active_requests && a < b)
}

impl<'a> Candidates for Fewest<'a> {
    closed spec fn total(&self) -> int {
        self.load@.len() as int
    }

    closed spec fn allowed(&self) -> spec_fn(int) -> bool {
        any_row()
    }

    closed spec fn preferred(&self) -> spec_fn(int, int) -> bool {
        fewer(self.load@)
    }

    fn count(&self) -> usize {
        self.load.len()
    }

    fn allows(&self, at: usize) -> bool {
        true
    }

    fn prefers(&self, a: usize, b: usize) -> bool {
        has_fewer(self.load, a, b)
    }

    proof fn lemma_ordered(&self) {
    }
}

impl<'a> Candidates for Most<'a> {
    closed spec fn total(&self) -> int {
        self.load@.len() as int
    }

    closed spec fn allowed(&self) -> spec_fn(int) -> bool {
        any_row()
    }

    closed spec fn preferred(&self) -> spec_fn(int, int) -> bool {
        more(self.load@)
    }

    fn count(&self) -> usize {
        self.load.len()
    }

    fn allows(&self, at: usize) -> bool {
        true
    }

    fn prefers(&self, a: usize, b: usize) -> bool {
        self.load[a].active_requests > self.load[b].active_requests || (
        self.load[a].active_requests == self.load[b].active_requests && a < b)
    }

    proof fn lemma_ordered(&self) {
    }
}

impl<'a> Candidates for Longest<'a> {
    closed spec fn total(&self) -> int {
        self.cache@.len() as int
    }

    closed spec fn allowed(&self) -> spec_fn(int) -> bool {
        any_row()
    }

    closed spec fn preferred(&self) -> spec_fn(int, int) -> bool {
        larger(self.cache@)
    }

    fn count(&self) -> usize {
        self.cache.len()
    }

    fn allows(&self, at: usize) -> bool {
        true
    }

    fn prefers(&self, a: usize, b: usize) -> bool {
        let left = self.cache[a].device_overlap_blocks;
        let right = self.cache[b].device_overlap_blocks;
        if left != right {
            right.total_lt(&left)
        } else {
            a < b
        }
    }

    proof fn lemma_ordered(&self) {
    }
}

impl<'a> Candidates for AmongSame<'a> {
    closed spec fn total(&self) -> int {
        if self.load@.len() <= self.cache@.len() {
            self.load@.len() as int
        } else {
            self.cache@.len() as int
        }
    }

    closed spec fn allowed(&self) -> spec_fn(int) -> bool {
        same_overlap(self.cache@, self.overlap)
    }

    closed spec fn preferred(&self) -> spec_fn(int, int) -> bool {
        fewer(self.load@)
    }

    fn count(&self) -> usize {
        if self.load.len() <= self.cache.len() {
            self.load.len()
        } else {
            self.cache.len()
        }
    }

    fn allows(&self, at: usize) -> bool {
        self.cache[at].device_overlap_blocks.same(&self.overlap)
    }

    fn prefers(&self, a: usize, b: usize) -> bool {
        has_fewer(self.load, a, b)
    }

    proof fn lemma_ordered(&self) {
    }
}

/// Find the least loaded of the rows with exactly the given overlap.
fn least_loaded(load: &Vec<RequestLoad>, cache: &Vec<CacheOverlap>, overlap: Real64) -> (found: Option<
    usize,
>)
    requires
        load@.len() == cache@.len(),
    ensures
        place_of(found) == least_loaded_of(load@, same_overlap(cache@, overlap)),
        found matches Some(at) ==> at < load@.len(),
{
    best(&AmongSame { load, cache, overlap })
}

/// Select a row.
pub fn select_row(cache: &Vec<CacheOverlap>, load: &Vec<RequestLoad>, request_blocks: u64) -> (row:
    Option<usize>)
    ensures
        place_of(row) == selected_row(cache@, load@, request_blocks),
        row matches Some(at) ==> at < load@.len(),
{
    if cache.len() == 0 || cache.len() != load.len() {
        proof {
            if load@.len() == 0 {
                assert(pick(0, any_row(), fewer(load@)) is None);
            }
        }
        return None;
    }
    let least = best(&Fewest { load });
    let most = best(&Most { load });
    let longest = best(&Longest { cache });
    proof {
        if least is None {
            assert(!(Fewest { load }).allowed()(0));
        }
        if most is None {
            assert(!(Most { load }).allowed()(0));
        }
        if longest is None {
            assert(!(Longest { cache }).allowed()(0));
        }
    }
    match (least, most, longest) {
        (Some(least), Some(most), Some(longest)) => {
            if is_imbalanced(&load[least], &load[most], IMBALANCE_DELTA_REQUESTS) {
                return Some(least);
            }
            let threshold: Real64 = Real64 { bits: CACHE_AFFINITY_THRESHOLD };
            if request_blocks > 0 && threshold.lt(&cache[longest].cached_fraction) {
                let overlap: Real64 = cache[longest].device_overlap_blocks;
                return least_loaded(load, cache, overlap);
            }
            Some(least)
        },
        _ => None,
    }
}

/// Cache affinity with a fixed load gate.
pub struct SglRouterCacheAwarePicker;

impl SglRouterCacheAwarePicker {
    /// Select a worker from the tables that the host has.
    pub fn pick(
        &self,
        request_blocks: u64,
        cache: Option<&Vec<CacheOverlap>>,
        load: Option<&Vec<RequestLoad>>,
    ) -> (row: Result<usize, SelectionError>)
        ensures
            row == (match (cache, load) {
                (None, _) => Err(SelectionError::CacheUnavailable),
                (_, None) => Err(SelectionError::LoadUnavailable),
                (Some(cache), Some(load)) => match selected_row(cache@, load@, request_blocks) {
                    Some(at) => Ok(at as usize),
                    None => Err(SelectionError::NoEligibleWorker),
                },
            }),
    {
        let cache: &Vec<CacheOverlap> = match cache {
            Some(cache) => cache,
            None => {
                return Err(SelectionError::CacheUnavailable);
            },
        };
        let load: &Vec<RequestLoad> = match load {
            Some(load) => load,
            None => {
                return Err(SelectionError::LoadUnavailable);
            },
        };
        match select_row(cache, load, request_blocks) {
            Some(at) => Ok(at),
            None => Err(SelectionError::NoEligibleWorker),
        }
    }
}

/// Whether a pool is unbalanced.
pub open spec fn pool_is_unbalanced(load: Seq<RequestLoad>) -> bool {
    match (
        pick(load.len() as int, any_row(), fewer(load)),
        pick(load.len() as int, any_row(), more(load)),
    ) {
        (Some(least), Some(most)) => imbalanced(load[least], load[most], IMBALANCE_DELTA_REQUESTS),
        _ => false,
    }
}

/// Whether the largest cached prefix is more than half of the request.
pub open spec fn prefix_is_large(cache: Seq<CacheOverlap>, request_blocks: u64) -> bool {
    pick(cache.len() as int, any_row(), larger(cache)) matches Some(longest) && request_blocks > 0
        && (Real64 { bits: CACHE_AFFINITY_THRESHOLD }).below(cache[longest].cached_fraction)
}

/// In an unbalanced pool, and where no cached prefix is large, a least loaded worker is selected.
pub proof fn lemma_least_loaded_without_affinity(
    cache: Seq<CacheOverlap>,
    load: Seq<RequestLoad>,
    request_blocks: u64,
    row: int,
    other: int,
)
    requires
        selected_row(cache, load, request_blocks) == Some(row),
        pool_is_unbalanced(load) || !prefix_is_large(cache, request_blocks),
        0 <= other < load.len(),
    ensures
        0 <= row < load.len(),
        load[row].active_requests <= load[other].active_requests,
{
    let all = any_row();
    assert(is_pick(row, load.len() as int, all, fewer(load)));
    assert(all(other));
    if other != row {
        assert(fewer(load)(row, other));
    }
}

/// In a balanced pool with a large cached prefix, the selected worker has exactly the largest
/// overlap, and no worker with it is less loaded.
pub proof fn lemma_affinity_selects_among_largest(
    cache: Seq<CacheOverlap>,
    load: Seq<RequestLoad>,
    request_blocks: u64,
    row: int,
    other: int,
)
    requires
        selected_row(cache, load, request_blocks) == Some(row),
        !pool_is_unbalanced(load),
        prefix_is_large(cache, request_blocks),
        0 <= other < load.len(),
    ensures
        0 <= row < load.len(),
        cache[row].device_overlap_blocks.equals(
            cache[pick(cache.len() as int, any_row(), larger(cache))->0].device_overlap_blocks,
        ),
        cache[other].device_overlap_blocks.equals(
            cache[pick(cache.len() as int, any_row(), larger(cache))->0].device_overlap_blocks,
        ) ==> load[row].active_requests <= load[other].active_requests,
        !cache[pick(
            cache.len() as int,
            any_row(),
            larger(cache),
        )->0].device_overlap_blocks.totally_before(cache[other].device_overlap_blocks),
{
    let all = any_row();
    let longest = pick(cache.len() as int, all, larger(cache))->0;
    let allowed = same_overlap(cache, cache[longest].device_overlap_blocks);
    assert(is_pick(longest, cache.len() as int, all, larger(cache)));
    assert(is_pick(row, load.len() as int, allowed, fewer(load)));
    assert(all(other));
    if other != longest {
        assert(larger(cache)(longest, other));
    }
    if allowed(other) && other != row {
        assert(fewer(load)(row, other));
    }
}

/// Where the largest count of requests exceeds the smallest by more than 32 and also exceeds the
/// limit of the smallest, or the longest cached prefix is not more than half of a request with
/// blocks, the first of the least loaded rows is selected. Elsewhere the selected row has the longest
/// prefix, no row with it is less loaded, and of equals it is the first.
pub proof fn lemma_load_gates_affinity(
    cache: Seq<CacheOverlap>,
    load: Seq<RequestLoad>,
    request_blocks: u64,
    least: int,
    most: int,
    longest: int,
)
    requires
        cache.len() == load.len(),
        0 <= least < load.len(),
        0 <= most < load.len(),
        0 <= longest < load.len(),
        forall|at: int|
            0 <= at < load.len() ==> load[least].active_requests <= (
            #[trigger] load[at]).active_requests <= load[most].active_requests,
        forall|at: int|
            0 <= at < least ==> (#[trigger] load[at]).active_requests
                > load[least].active_requests,
        forall|at: int|
            0 <= at < most ==> (#[trigger] load[at]).active_requests < load[most].active_requests,
        forall|at: int|
            0 <= at < cache.len() ==> !cache[longest].device_overlap_blocks.totally_before(
                (#[trigger] cache[at]).device_overlap_blocks,
            ),
        forall|at: int|
            0 <= at < longest ==> (#[trigger] cache[at]).device_overlap_blocks
                != cache[longest].device_overlap_blocks,
        !cache[longest].device_overlap_blocks.nan(),
    ensures
        ({
            let unbalanced = load[most].active_requests - load[least].active_requests > 32
                && load[least].limit.below(load[most].requests);
            let half = Real64 { bits: 0x3fe0_0000_0000_0000 };
            let prefix = request_blocks > 0 && half.below(cache[longest].cached_fraction);
            selected_row(cache, load, request_blocks) matches Some(row) && {
                &&& 0 <= row < load.len()
                &&& unbalanced || !prefix ==> row == least
                &&& !unbalanced && prefix ==> {
                    &&& cache[row].device_overlap_blocks.equals(
                        cache[longest].device_overlap_blocks,
                    )
                    &&& forall|at: int|
                        0 <= at < load.len() && (#[trigger] cache[at]).device_overlap_blocks.equals(
                            cache[longest].device_overlap_blocks,
                        ) ==> load[row].active_requests <= load[at].active_requests && (
                        load[row].active_requests == load[at].active_requests ==> row <= at)
                }
            }
        }),
{
    let count = load.len() as int;
    let all = any_row();
    lemma_pick(count, all, fewer(load));
    lemma_pick(count, all, more(load));
    lemma_pick(count, all, larger(cache));
    assert(all(least) && all(most) && all(longest));
    let a = pick(count, all, fewer(load))->0;
    let b = pick(count, all, more(load))->0;
    let c = pick(count, all, larger(cache))->0;
    if a != least {
        assert(fewer(load)(a, least));
        assert(load[least].active_requests <= load[a].active_requests);
    }
    if b != most {
        assert(more(load)(b, most));
        assert(load[b].active_requests <= load[most].active_requests);
    }
    if c != longest {
        assert(larger(cache)(c, longest));
        assert(!cache[longest].device_overlap_blocks.totally_before(
            cache[c].device_overlap_blocks,
        ));
    }
    let same = same_overlap(cache, cache[longest].device_overlap_blocks);
    lemma_pick(count, same, fewer(load));
    assert(same(longest));
    if let Some(row) = least_loaded_of(load, same) {
        assert(same(row));
        assert forall|at: int|
            0 <= at < load.len() && (#[trigger] cache[at]).device_overlap_blocks.equals(
                cache[longest].device_overlap_blocks,
            ) implies load[row].active_requests <= load[at].active_requests && (
        load[row].active_requests == load[at].active_requests ==> row <= at) by {
            assert(same(at));
            if at != row {
                assert(fewer(load)(row, at));
            }
        }
    }
}

/// Without rows, or with tables of different lengths, no row is selected.
pub proof fn lemma_tables_have_to_match(
    cache: Seq<CacheOverlap>,
    load: Seq<RequestLoad>,
    request_blocks: u64,
)
    requires
        cache.len() != load.len() || load.len() == 0,
    ensures
        selected_row(cache, load, request_blocks) is None,
{
    lemma_pick(load.len() as int, any_row(), fewer(load));
}

} // verus!
