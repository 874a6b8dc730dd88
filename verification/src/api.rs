//! What the puzzle source decides without touching the network: the bounded cache of
//! puzzles, the pause between requests, the delay before a retry, and the plan by which
//! a batch of puzzles is fetched.

use crate::generator::{is_generated, BoardGenerator};
use crate::grid::{ApiResponse, Grid};
use std::collections::VecDeque;
use vstd::arithmetic::power2::{
    lemma2_to64, lemma2_to64_rest, lemma_pow2_strictly_increases, lemma_pow2_unfold, pow2,
};
use vstd::prelude::*;

verus! {

/// The most puzzles that the cache holds.
pub const CACHE_SIZE: usize = 1000;

/// The shortest time between two requests, in nanoseconds.
pub const MIN_REQUEST_INTERVAL_NANOS: u64 = 100_000_000;

/// How often one fetch asks the remote source.
pub const MAX_RETRIES: u32 = 3;

/// How many puzzles are generated into an empty cache.
pub const LOCAL_GENERATION_THRESHOLD: usize = 100;

/// The cache of puzzles: the newest fetched puzzle first, and never more than
/// `CACHE_SIZE` puzzles.
pub struct BoardCache {
    boards: VecDeque<Grid>,
}

impl View for BoardCache {
    type V = Seq<Grid>;

    closed spec fn view(&self) -> Seq<Grid> {
        self.boards@
    }
}

impl BoardCache {
    /// A cache with no puzzle.
    pub fn new() -> (cache: BoardCache)
        ensures
            cache@ == Seq::<Grid>::empty(),
    {
        BoardCache { boards: VecDeque::with_capacity(CACHE_SIZE) }
    }

    /// How many puzzles the cache holds.
    pub fn len(&self) -> (len: usize)
        ensures
            len == self@.len(),
    {
        self.boards.len()
    }

    /// Whether the cache holds no puzzle.
    pub fn is_empty(&self) -> (empty: bool)
        ensures
            empty == (self@.len() == 0),
    {
        self.boards.len() == 0
    }

    /// Takes the first puzzle out of the cache, if there is one.
    pub fn get_from_cache(&mut self) -> (board: Option<Grid>)
        ensures
            old(self)@.len() == 0 ==> board is None && final(self)@ == old(self)@,
            old(self)@.len() > 0 ==> board == Some(old(self)@[0]) && final(self)@ == old(
                self,
            )@.drop_first(),
    {
        let board = self.boards.pop_front();
        proof {
            if old(self)@.len() > 0 {
                assert(self@ =~= old(self)@.drop_first());
            }
        }
        board
    }

    /// Puts `board` in front of the puzzles of the cache. A cache that holds
    /// `CACHE_SIZE` puzzles or more gives up its last one first.
    pub fn add_to_cache(&mut self, board: Grid)
        requires
            old(self)@.len() < usize::MAX,
        ensures
            final(self)@ == seq![board] + if old(self)@.len() >= CACHE_SIZE {
                old(self)@.drop_last()
            } else {
                old(self)@
            },
    {
        if self.boards.len() >= CACHE_SIZE {
            self.boards.pop_back();
        }
        let ghost kept = self.boards@;
        self.boards.push_front(board);
        assert(self.boards@ =~= seq![board] + kept);
    }

    /// Fills an empty cache with `LOCAL_GENERATION_THRESHOLD` puzzles of `generator`,
    /// each put behind the ones before it. A cache that holds a puzzle is left as it
    /// is.
    pub fn initialize_cache(&mut self, generator: &mut BoardGenerator)
        ensures
            old(self)@.len() > 0 ==> final(self)@ == old(self)@,
            old(self)@.len() == 0 ==> final(self)@.len() == LOCAL_GENERATION_THRESHOLD && forall|
                i: int,
            |
                0 <= i < LOCAL_GENERATION_THRESHOLD ==> is_generated(#[trigger] final(self)@[i]),
    {
        if self.boards.len() == 0 {
            for made in 0..LOCAL_GENERATION_THRESHOLD
                invariant
                    self@.len() == made,
                    forall|i: int| 0 <= i < made ==> is_generated(#[trigger] self@[i]),
            {
                let ghost before = self@;
                if let Ok(board) = generator.generate() {
                    self.boards.push_back(board);
                }
                assert forall|i: int| 0 <= i < made + 1 implies is_generated(#[trigger] self@[i]) by {
                    if i < made {
                        assert(self@[i] == before[i]);
                    }
                }
            }
        }
    }
}

/// How long to wait before the next request when `elapsed_nanos` nanoseconds have
/// passed since the last one: what is missing to `MIN_REQUEST_INTERVAL_NANOS`, or
/// nothing where that much time has passed.
pub fn rate_limit_wait(elapsed_nanos: u128) -> (wait: Option<u64>)
    ensures
        elapsed_nanos < MIN_REQUEST_INTERVAL_NANOS ==> wait == Some(
            (MIN_REQUEST_INTERVAL_NANOS - elapsed_nanos) as u64,
        ),
        elapsed_nanos >= MIN_REQUEST_INTERVAL_NANOS ==> wait is None,
{
    if elapsed_nanos < MIN_REQUEST_INTERVAL_NANOS as u128 {
        Some(MIN_REQUEST_INTERVAL_NANOS - elapsed_nanos as u64)
    } else {
        None
    }
}

/// The delay in milliseconds before request number `retry` of a fetch, the first
/// request being number 0: none before the first, and 100 times two to the power of
/// `retry` before the others. Beyond number 57 the delay would not fit in 64 bits.
pub fn retry_delay_millis(retry: u32) -> (delay: u64)
    requires
        retry <= 57,
    ensures
        delay == if retry == 0 {
            0
        } else {
            100 * pow2(retry as nat)
        },
{
    if retry == 0 {
        return 0;
    }
    let mut factor: u64 = 1;
    let mut done: u32 = 0;
    proof {
        lemma2_to64();
        lemma2_to64_rest();
    }
    while done < retry
        invariant
            done <= retry <= 57,
            factor == pow2(done as nat),
            pow2(57) == 0x200000000000000,
        decreases retry - done,
    {
        proof {
            lemma_pow2_unfold((done + 1) as nat);
            if done + 1 < 57 {
                lemma_pow2_strictly_increases((done + 1) as nat, 57);
            }
        }
        factor = factor * 2;
        done = done + 1;
    }
    100 * factor
}

/// The first puzzle of an answer, if it holds one.
pub fn first_grid(response: ApiResponse) -> (grid: Option<Grid>)
    ensures
        response.newboard.grids@.len() == 0 ==> grid is None,
        response.newboard.grids@.len() > 0 ==> grid == Some(response.newboard.grids@[0]),
{
    let mut grids = response.newboard.grids;
    if grids.len() == 0 {
        None
    } else {
        Some(grids.swap_remove(0))
    }
}

/// Where the next puzzle of a batch comes from.
#[derive(Debug, Clone, Copy, PartialEq, Eq, Structural)]
pub enum FetchAction {
    /// The batch is over.
    Done,
    /// Ask the remote source, and generate locally if it fails.
    RemoteThenLocal,
    /// Generate locally.
    Local,
}

/// The state of fetching a batch of puzzles: how many are wanted, how many are there,
/// and how many attempts were made of at most twice the number that was missing at the
/// start.
#[derive(Debug, Clone, Copy)]
pub struct FetchPlan {
    pub wanted: usize,
    pub fetched: usize,
    pub attempts: usize,
    pub max_attempts: usize,
}

impl FetchPlan {
    /// Whether the plan's numbers fit together.
    pub open spec fn is_valid(&self) -> bool {
        &&& self.fetched <= self.wanted
        &&& self.attempts <= self.max_attempts
        &&& self.fetched + (self.max_attempts - self.attempts) <= usize::MAX
    }

    /// The plan for `wanted` puzzles of which `fetched` are there already. The number
    /// of attempts is twice the number missing, or as near to it as the machine's
    /// numbers allow.
    pub fn new(wanted: usize, fetched: usize) -> (plan: FetchPlan)
        ensures
            plan.is_valid(),
            plan.wanted == wanted,
            plan.fetched == if fetched <= wanted {
                fetched
            } else {
                wanted
            },
            plan.attempts == 0,
            plan.max_attempts == if 2 * (wanted - plan.fetched) + plan.fetched <= usize::MAX {
                2 * (wanted - plan.fetched)
            } else {
                usize::MAX - plan.fetched
            },
    {
        let fetched = if fetched <= wanted {
            fetched
        } else {
            wanted
        };
        let missing = wanted - fetched;
        let room = usize::MAX - fetched;
        let max_attempts = if missing <= room / 2 {
            2 * missing
        } else {
            room
        };
        FetchPlan { wanted, fetched, attempts: 0, max_attempts }
    }

    /// What to do next: nothing more when enough puzzles are there or the attempts are
    /// used up; otherwise the remote source on even attempts and the local generator on
    /// odd ones.
    pub fn next_action(&self) -> (action: FetchAction)
        ensures
            action == if self.fetched >= self.wanted || self.attempts >= self.max_attempts {
                FetchAction::Done
            } else if self.attempts % 2 == 0 {
                FetchAction::RemoteThenLocal
            } else {
                FetchAction::Local
            },
    {
        if self.fetched >= self.wanted || self.attempts >= self.max_attempts {
            FetchAction::Done
        } else if self.attempts % 2 == 0 {
            FetchAction::RemoteThenLocal
        } else {
            FetchAction::Local
        }
    }

    /// Records the outcome of an attempt, `success` telling whether it brought a
    /// puzzle, and tells whether to pause before the next one: after every second
    /// attempt.
    pub fn record(&mut self, success: bool) -> (pause: bool)
        requires
            old(self).is_valid(),
            old(self).fetched < old(self).wanted,
            old(self).attempts < old(self).max_attempts,
        ensures
            final(self).is_valid(),
            final(self).wanted == old(self).wanted,
            final(self).max_attempts == old(self).max_attempts,
            final(self).attempts == old(self).attempts + 1,
            final(self).fetched == old(self).fetched + if success {
                1int
            } else {
                0int
            },
            pause == (final(self).attempts % 2 == 0),
    {
        if success {
            self.fetched = self.fetched + 1;
        }
        self.attempts = self.attempts + 1;
        self.attempts % 2 == 0
    }
}

} // verus!
