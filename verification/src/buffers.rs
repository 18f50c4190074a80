//! Three ways to hold the parts of a search buffer: boxed runs, fixed-size
//! arrays, and runs borrowed from one caller's slice.

use vstd::prelude::*;
use crate::scheduler::{ScheduleT, Sizes, sizes_within, all_empty};
use crate::word::Word;

verus! {

/// `Vec::into_boxed_slice`: the same items, in a boxed slice.
#[verifier::external_body]
fn into_boxed<T>(v: Vec<T>) -> (r: Box<[T]>)
    ensures
        r@ == v@,
{
    v.into_boxed_slice()
}

/// `n` empty words.
fn empty_words<T: Word>(n: usize) -> (r: Vec<T>)
    ensures
        r@.len() == n,
        forall|j: int, i: int| 0 <= j < n ==> !#[trigger] r@[j].has_bit(i),
{
    let mut v: Vec<T> = Vec::new();
    while v.len() < n
        invariant
            v@.len() <= n,
            forall|j: int, i: int| 0 <= j < v@.len() ==> !#[trigger] v@[j].has_bit(i),
        decreases n - v@.len(),
    {
        v.push(T::zero());
    }
    v
}

/// `n` empty words, boxed.
fn empty_box<T: Word>(n: usize) -> (r: Box<[T]>)
    ensures
        r@.len() == n,
        forall|j: int, i: int| 0 <= j < n ==> !#[trigger] r@[j].has_bit(i),
{
    into_boxed(empty_words(n))
}

/// The parts of a search buffer, each in a boxed run of its own.
#[derive(Debug)]
pub struct BoxSchedule<T: Word> {
    to_explore: Box<[T]>,
    played_with: Box<[T]>,
    played_on_table: Box<[T]>,
    played_in_round: Box<[T]>,
    played_in_game: Box<[T]>,
    potential_in_game: Box<[T]>,
}

impl<T: Word> ScheduleT<T> for BoxSchedule<T> {
    open spec fn can_hold(sizes: Sizes) -> bool {
        true
    }

    closed spec fn parts(&self) -> Seq<Seq<T>> {
        seq![
            self.to_explore@,
            self.played_with@,
            self.played_on_table@,
            self.played_in_round@,
            self.played_in_game@,
            self.potential_in_game@,
        ]
    }

    fn new(sizes: Sizes) -> (r: Option<Self>) {
        let b = BoxSchedule {
            to_explore: empty_box(sizes.get_to_explore_size()),
            played_with: empty_box(sizes.get_played_with_size()),
            played_on_table: empty_box(sizes.get_played_on_table_size()),
            played_in_round: empty_box(sizes.get_played_in_round_size()),
            played_in_game: empty_box(sizes.get_played_in_game_size()),
            potential_in_game: empty_box(sizes.get_potential_in_game_size()),
        };
        Some(b)
    }

    fn get_to_explore(&self) -> (r: &[T]) {
        &self.to_explore
    }

    fn get_to_explore_mut(&mut self) -> (r: &mut [T]) {
        &mut self.to_explore
    }

    fn get_played_with(&self) -> (r: &[T]) {
        &self.played_with
    }

    fn get_played_with_mut(&mut self) -> (r: &mut [T]) {
        &mut self.played_with
    }

    fn get_played_on_table(&self) -> (r: &[T]) {
        &self.played_on_table
    }

    fn get_played_on_table_mut(&mut self) -> (r: &mut [T]) {
        &mut self.played_on_table
    }

    fn get_played_in_round(&self) -> (r: &[T]) {
        &self.played_in_round
    }

    fn get_played_in_round_mut(&mut self) -> (r: &mut [T]) {
        &mut self.played_in_round
    }

    fn get_played_in_game(&self) -> (r: &[T]) {
        &self.played_in_game
    }

    fn get_played_in_game_mut(&mut self) -> (r: &mut [T]) {
        &mut self.played_in_game
    }

    fn get_potential_in_game(&self) -> (r: &[T]) {
        &self.potential_in_game
    }

    fn get_potential_in_game_mut(&mut self) -> (r: &mut [T]) {
        &mut self.potential_in_game
    }
}

/// The parts of a search buffer in arrays of fixed lengths `A` to `F`.
#[derive(Debug)]
pub struct FixedSchedule<T: Word, const A: usize, const B: usize, const C: usize, const D: usize, const E: usize, const F: usize> {
    to_explore: [T; A],
    played_with: [T; B],
    played_on_table: [T; C],
    played_in_round: [T; D],
    played_in_game: [T; E],
    potential_in_game: [T; F],
}

impl<T: Word, const A: usize, const B: usize, const C: usize, const D: usize, const E: usize, const F: usize> ScheduleT<
    T,
> for FixedSchedule<T, A, B, C, D, E, F> {
    open spec fn can_hold(sizes: Sizes) -> bool {
        &&& sizes.spec_to_explore_size() <= A
        &&& sizes.spec_played_with_size() <= B
        &&& sizes.spec_played_on_table_size() <= C
        &&& sizes.spec_played_in_round_size() <= D
        &&& sizes.spec_played_in_game_size() <= E
        &&& sizes.spec_played_in_game_size() <= F
    }

    closed spec fn parts(&self) -> Seq<Seq<T>> {
        seq![
            self.to_explore@,
            self.played_with@,
            self.played_on_table@,
            self.played_in_round@,
            self.played_in_game@,
            self.potential_in_game@,
        ]
    }

    /// `None` when a part needs more words than its array holds.
    fn new(sizes: Sizes) -> (r: Option<Self>) {
        if sizes.get_to_explore_size() > A || sizes.get_played_with_size() > B || sizes.get_played_on_table_size() > C
            || sizes.get_played_in_round_size() > D || sizes.get_played_in_game_size() > E
            || sizes.get_potential_in_game_size() > F {
            None
        } else {
            let z = T::zero();
            let b = FixedSchedule {
                to_explore: [z; A],
                played_with: [z; B],
                played_on_table: [z; C],
                played_in_round: [z; D],
                played_in_game: [z; E],
                potential_in_game: [z; F],
            };
            Some(b)
        }
    }

    fn get_to_explore(&self) -> (r: &[T]) {
        self.to_explore.as_slice()
    }

    fn get_to_explore_mut(&mut self) -> (r: &mut [T]) {
        &mut self.to_explore
    }

    fn get_played_with(&self) -> (r: &[T]) {
        self.played_with.as_slice()
    }

    fn get_played_with_mut(&mut self) -> (r: &mut [T]) {
        &mut self.played_with
    }

    fn get_played_on_table(&self) -> (r: &[T]) {
        self.played_on_table.as_slice()
    }

    fn get_played_on_table_mut(&mut self) -> (r: &mut [T]) {
        &mut self.played_on_table
    }

    fn get_played_in_round(&self) -> (r: &[T]) {
        self.played_in_round.as_slice()
    }

    fn get_played_in_round_mut(&mut self) -> (r: &mut [T]) {
        &mut self.played_in_round
    }

    fn get_played_in_game(&self) -> (r: &[T]) {
        self.played_in_game.as_slice()
    }

    fn get_played_in_game_mut(&mut self) -> (r: &mut [T]) {
        &mut self.played_in_game
    }

    fn get_potential_in_game(&self) -> (r: &[T]) {
        self.potential_in_game.as_slice()
    }

    fn get_potential_in_game_mut(&mut self) -> (r: &mut [T]) {
        &mut self.potential_in_game
    }
}

/// The parts of a search buffer as runs of one borrowed slice.
#[derive(Debug)]
pub struct RefSchedule<'a, T: Word> {
    to_explore: &'a mut [T],
    played_with: &'a mut [T],
    played_on_table: &'a mut [T],
    played_in_round: &'a mut [T],
    played_in_game: &'a mut [T],
    potential_in_game: &'a mut [T],
}

impl<'a, T: Word> RefSchedule<'a, T> {
    /// Splits `slice` into the parts, in order; `None` when it is shorter
    /// than the sizes' total, which leaves out the potential-in-game part.
    pub fn from_slice(sizes: Sizes, slice: &'a mut [T]) -> (r: Option<Self>)
        requires
            sizes.spec_total_size() <= usize::MAX,
            old(slice)@.len() < sizes.spec_total_size() || old(slice)@.len() >= sizes.spec_total_size()
                + sizes.spec_played_in_game_size(),
        ensures
            r is None <==> old(slice)@.len() < sizes.spec_total_size(),
            r matches Some(b) ==> {
                let s = old(slice)@;
                let o1 = sizes.spec_to_explore_size();
                let o2 = o1 + sizes.spec_played_with_size();
                let o3 = o2 + sizes.spec_played_on_table_size();
                let o4 = o3 + sizes.spec_played_in_round_size();
                let o5 = o4 + sizes.spec_played_in_game_size();
                let o6 = o5 + sizes.spec_played_in_game_size();
                b.parts() == seq![
                    s.subrange(0, o1),
                    s.subrange(o1, o2),
                    s.subrange(o2, o3),
                    s.subrange(o3, o4),
                    s.subrange(o4, o5),
                    s.subrange(o5, o6),
                ]
            },
    {
        if slice.len() < sizes.get_total_size() {
            None
        } else {
            proof {
                sizes.lemma_sizes_nonneg();
            }
            let ghost s0 = slice@;
            let ghost n = s0.len() as int;
            let ghost o1 = sizes.spec_to_explore_size();
            let ghost o2 = o1 + sizes.spec_played_with_size();
            let ghost o3 = o2 + sizes.spec_played_on_table_size();
            let ghost o4 = o3 + sizes.spec_played_in_round_size();
            let ghost o5 = o4 + sizes.spec_played_in_game_size();
            let (to_explore, slice) = slice.split_at_mut(sizes.get_to_explore_size());
            assert(slice@ =~= s0.subrange(o1, n));
            let (played_with, slice) = slice.split_at_mut(sizes.get_played_with_size());
            assert(played_with@ =~= s0.subrange(o1, o2));
            assert(slice@ =~= s0.subrange(o2, n));
            let (played_on_table, slice) = slice.split_at_mut(sizes.get_played_on_table_size());
            assert(played_on_table@ =~= s0.subrange(o2, o3));
            assert(slice@ =~= s0.subrange(o3, n));
            let (played_in_round, slice) = slice.split_at_mut(sizes.get_played_in_round_size());
            assert(played_in_round@ =~= s0.subrange(o3, o4));
            assert(slice@ =~= s0.subrange(o4, n));
            let (played_in_game, slice) = slice.split_at_mut(sizes.get_played_in_game_size());
            assert(played_in_game@ =~= s0.subrange(o4, o5));
            assert(slice@ =~= s0.subrange(o5, n));
            let (potential_in_game, _slice) = slice.split_at_mut(sizes.get_potential_in_game_size());
            assert(potential_in_game@ =~= s0.subrange(o5, o5 + sizes.spec_played_in_game_size()));
            Some(
                RefSchedule {
                    to_explore,
                    played_with,
                    played_on_table,
                    played_in_round,
                    played_in_game,
                    potential_in_game,
                },
            )
        }
    }
}

impl<'a, T: Word> ScheduleT<T> for RefSchedule<'a, T> {
    open spec fn can_hold(sizes: Sizes) -> bool {
        false
    }

    closed spec fn parts(&self) -> Seq<Seq<T>> {
        seq![
            self.to_explore@,
            self.played_with@,
            self.played_on_table@,
            self.played_in_round@,
            self.played_in_game@,
            self.potential_in_game@,
        ]
    }

    /// Borrowed parts are made by `from_slice` only.
    fn new(sizes: Sizes) -> (r: Option<Self>) {
        None
    }

    fn get_to_explore(&self) -> (r: &[T]) {
        &*self.to_explore
    }

    fn get_to_explore_mut(&mut self) -> (r: &mut [T]) {
        &mut *self.to_explore
    }

    fn get_played_with(&self) -> (r: &[T]) {
        &*self.played_with
    }

    fn get_played_with_mut(&mut self) -> (r: &mut [T]) {
        &mut *self.played_with
    }

    fn get_played_on_table(&self) -> (r: &[T]) {
        &*self.played_on_table
    }

    fn get_played_on_table_mut(&mut self) -> (r: &mut [T]) {
        &mut *self.played_on_table
    }

    fn get_played_in_round(&self) -> (r: &[T]) {
        &*self.played_in_round
    }

    fn get_played_in_round_mut(&mut self) -> (r: &mut [T]) {
        &mut *self.played_in_round
    }

    fn get_played_in_game(&self) -> (r: &[T]) {
        &*self.played_in_game
    }

    fn get_played_in_game_mut(&mut self) -> (r: &mut [T]) {
        &mut *self.played_in_game
    }

    fn get_potential_in_game(&self) -> (r: &[T]) {
        &*self.potential_in_game
    }

    fn get_potential_in_game_mut(&mut self) -> (r: &mut [T]) {
        &mut *self.potential_in_game
    }
}

} // verus!
