//! The exhaustive solver: a search state packed into one buffer of 64-bit words,
//! one search step at a time.

use vstd::prelude::*;
use vstd::arithmetic::power2::{pow2, lemma_pow2_unfold, lemma_pow2_strictly_increases};
use crate::word::Word;
use crate::text::{spaces, header_cells, rule, row_cells, row_lead, rows_text, blocks, grid_text, cell_text};

verus! {

/// The sum of the numbers of `s`.
pub open spec fn seq_sum(s: Seq<usize>) -> int
    decreases s.len(),
{
    if s.len() == 0 {
        0
    } else {
        seq_sum(s.drop_last()) + s.last()
    }
}

/// `a / b`, rounded up.
pub open spec fn div_ceil(a: int, b: int) -> int {
    a / b + if a % b != 0 {
        1int
    } else {
        0int
    }
}

proof fn lemma_seq_sum_prefix(s: Seq<usize>, i: int)
    requires
        0 <= i <= s.len(),
    ensures
        0 <= seq_sum(s.subrange(0, i)) <= seq_sum(s),
    decreases s.len() - i,
{
    if i < s.len() {
        lemma_seq_sum_prefix(s, i + 1);
        assert(s.subrange(0, i + 1).drop_last() =~= s.subrange(0, i));
    } else {
        assert(s.subrange(0, i) =~= s);
    }
    lemma_seq_sum_nonneg(s.subrange(0, i));
}

proof fn lemma_seq_sum_nonneg(s: Seq<usize>)
    ensures
        seq_sum(s) >= 0,
    decreases s.len(),
{
    if s.len() > 0 {
        lemma_seq_sum_nonneg(s.drop_last());
    }
}

/// The sum of the table sizes: the number of players.
fn sum_tables(tables: &[usize]) -> (r: usize)
    requires
        seq_sum(tables@) <= usize::MAX,
    ensures
        r == seq_sum(tables@),
{
    let mut total: usize = 0;
    let mut i: usize = 0;
    while i < tables.len()
        invariant
            i <= tables@.len(),
            total == seq_sum(tables@.subrange(0, i as int)),
            seq_sum(tables@) <= usize::MAX,
        decreases tables@.len() - i,
    {
        proof {
            lemma_seq_sum_prefix(tables@, i + 1);
            assert(tables@.subrange(0, i + 1).drop_last() =~= tables@.subrange(0, i as int));
        }
        total = total + tables[i];
        i = i + 1;
    }
    assert(tables@.subrange(0, i as int) =~= tables@);
    total
}

/// `a / b` rounded up, for a positive `b`.
fn ceil_div(a: usize, b: usize) -> (r: usize)
    requires
        b > 0,
    ensures
        r == div_ceil(a as int, b as int),
{
    proof {
        if a % b != 0 {
            assert(b >= 2);
            assert(a / b <= a / 2) by (nonlinear_arith)
                requires b >= 2, a >= 0;
        }
    }
    a / b + if a % b != 0 {
        1
    } else {
        0
    }
}

/// The number of bits of a value of type `T`.
pub fn bit_length<T>() -> (r: usize)
    requires
        vstd::layout::size_of::<T>() * 8 <= usize::MAX,
    ensures
        r == vstd::layout::size_of::<T>() * 8,
{
    core::mem::size_of::<T>() * 8
}

/// The word index and the in-word mask of bit number `bit`, for words of type `T`.
fn get_byte_and_mask<T>(bit: usize) -> (r: (usize, u64))
    requires
        8 <= vstd::layout::size_of::<T>() * 8 <= 64,
    ensures
        r.0 == bit as nat / (vstd::layout::size_of::<T>() * 8),
        r.1 == 1u64 << ((bit as nat % (vstd::layout::size_of::<T>() * 8)) as u64),
{
    let len = bit_length::<T>();
    let byte = bit / len;
    proof {
        assert(byte * len == bit - bit % len) by (nonlinear_arith)
            requires byte == bit / len, len > 0;
        assert(bit % len < len) by (nonlinear_arith)
            requires len > 0;
    }
    let mask = 1u64 << ((bit - byte * len) as u64);
    (byte, mask)
}

/// Why a solver could not be set up.
#[derive(Copy, Clone, Debug, PartialEq, Eq, Structural)]
pub enum SchedulerErrors {
    ZeroLengthGroups,
    PlayerCountOverflow,
    TooSmallBuffer,
    RoundsTooLarge,
}

/// The parts of a search buffer, each a run of words of type `T`.
pub trait ScheduleT<T: Word> {
    /// The words of the parts, in order: to explore, played with, played on
    /// table, played in round, played in game, potential in game.
    spec fn parts(&self) -> Seq<Seq<T>>;

    /// Whether this kind of buffer can be made with parts of the given sizes.
    spec fn can_hold(sizes: Sizes) -> bool;

    /// Fresh parts of at least the given sizes, every word empty; `None` when
    /// this kind of buffer cannot hold them.
    fn new(sizes: Sizes) -> (r: Option<Self>) where Self: Sized
        ensures
            r is Some <==> Self::can_hold(sizes),
            r matches Some(b) ==> b.parts().len() == 6 && sizes_within(sizes, b.parts()) && all_empty(b.parts()),
    ;

    /// The to-explore part.
    fn get_to_explore(&self) -> (r: &[T])
        requires
            self.parts().len() == 6,
        ensures
            r@ == self.parts()[0],
    ;

    /// The to-explore part, to change; the other parts stay as they are.
    fn get_to_explore_mut(&mut self) -> (r: &mut [T])
        requires
            old(self).parts().len() == 6,
        ensures
            r@ == old(self).parts()[0],
            final(self).parts() == old(self).parts().update(0, final(r)@),
    ;

    /// The played-with part.
    fn get_played_with(&self) -> (r: &[T])
        requires
            self.parts().len() == 6,
        ensures
            r@ == self.parts()[1],
    ;

    /// The played-with part, to change; the other parts stay as they are.
    fn get_played_with_mut(&mut self) -> (r: &mut [T])
        requires
            old(self).parts().len() == 6,
        ensures
            r@ == old(self).parts()[1],
            final(self).parts() == old(self).parts().update(1, final(r)@),
    ;

    /// The played-on-table part.
    fn get_played_on_table(&self) -> (r: &[T])
        requires
            self.parts().len() == 6,
        ensures
            r@ == self.parts()[2],
    ;

    /// The played-on-table part, to change; the other parts stay as they are.
    fn get_played_on_table_mut(&mut self) -> (r: &mut [T])
        requires
            old(self).parts().len() == 6,
        ensures
            r@ == old(self).parts()[2],
            final(self).parts() == old(self).parts().update(2, final(r)@),
    ;

    /// The played-in-round part.
    fn get_played_in_round(&self) -> (r: &[T])
        requires
            self.parts().len() == 6,
        ensures
            r@ == self.parts()[3],
    ;

    /// The played-in-round part, to change; the other parts stay as they are.
    fn get_played_in_round_mut(&mut self) -> (r: &mut [T])
        requires
            old(self).parts().len() == 6,
        ensures
            r@ == old(self).parts()[3],
            final(self).parts() == old(self).parts().update(3, final(r)@),
    ;

    /// The played-in-game part.
    fn get_played_in_game(&self) -> (r: &[T])
        requires
            self.parts().len() == 6,
        ensures
            r@ == self.parts()[4],
    ;

    /// The played-in-game part, to change; the other parts stay as they are.
    fn get_played_in_game_mut(&mut self) -> (r: &mut [T])
        requires
            old(self).parts().len() == 6,
        ensures
            r@ == old(self).parts()[4],
            final(self).parts() == old(self).parts().update(4, final(r)@),
    ;

    /// The potential-in-game part.
    fn get_potential_in_game(&self) -> (r: &[T])
        requires
            self.parts().len() == 6,
        ensures
            r@ == self.parts()[5],
    ;

    /// The potential-in-game part, to change; the other parts stay as they are.
    fn get_potential_in_game_mut(&mut self) -> (r: &mut [T])
        requires
            old(self).parts().len() == 6,
        ensures
            r@ == old(self).parts()[5],
            final(self).parts() == old(self).parts().update(5, final(r)@),
    ;
}

/// Every part is at least as long as `sizes` asks; the potential-in-game part
/// as long as the played-in-game part.
pub open spec fn sizes_within<T>(sizes: Sizes, parts: Seq<Seq<T>>) -> bool {
    &&& parts[0].len() >= sizes.spec_to_explore_size()
    &&& parts[1].len() >= sizes.spec_played_with_size()
    &&& parts[2].len() >= sizes.spec_played_on_table_size()
    &&& parts[3].len() >= sizes.spec_played_in_round_size()
    &&& parts[4].len() >= sizes.spec_played_in_game_size()
    &&& parts[5].len() >= sizes.spec_played_in_game_size()
}

/// No word of any part has a bit set.
pub open spec fn all_empty<T: Word>(parts: Seq<Seq<T>>) -> bool {
    forall|k: int, j: int, i: int| 0 <= k < parts.len() && 0 <= j < parts[k].len() ==> !#[trigger] parts[k][j].has_bit(i)
}

/// A solver with a chosen kind of buffer.
pub trait SchedulerTrait {
    type S;
}

/// A solver known by its buffer sizes alone.
pub struct Scheduler2 {
    sizes: Sizes,
}

/// The sizes, in words, of the parts of a search buffer.
pub struct Sizes {
    player_bit_word_count: usize,
    to_explore_size: usize,
    played_with_size: usize,
    played_on_table_size: usize,
    played_in_round_size: usize,
    played_in_game_size: usize,
}

/// Whether the sizes of a buffer for `tables` and `rounds`, with words of
/// `bits` bits, fit in a `usize`.
pub open spec fn sizes_fit(tables: Seq<usize>, rounds: int, bits: int) -> bool {
    let p = seq_sum(tables);
    let w = div_ceil(p, bits);
    let t = tables.len() as int;
    &&& bits > 0
    &&& p <= usize::MAX
    &&& w * p <= usize::MAX
    &&& w * t <= usize::MAX
    &&& w * rounds <= usize::MAX
    &&& w * t * rounds <= usize::MAX
    &&& rounds * t * 2 <= usize::MAX
}

impl Sizes {
    pub closed spec fn spec_player_bit_word_count(&self) -> int {
        self.player_bit_word_count as int
    }

    pub closed spec fn spec_to_explore_size(&self) -> int {
        self.to_explore_size as int
    }

    pub closed spec fn spec_played_with_size(&self) -> int {
        self.played_with_size as int
    }

    pub closed spec fn spec_played_on_table_size(&self) -> int {
        self.played_on_table_size as int
    }

    pub closed spec fn spec_played_in_round_size(&self) -> int {
        self.played_in_round_size as int
    }

    pub closed spec fn spec_played_in_game_size(&self) -> int {
        self.played_in_game_size as int
    }

    /// Every size is a count of words.
    pub proof fn lemma_sizes_nonneg(&self)
        ensures
            self.spec_player_bit_word_count() >= 0,
            self.spec_to_explore_size() >= 0,
            self.spec_played_with_size() >= 0,
            self.spec_played_on_table_size() >= 0,
            self.spec_played_in_round_size() >= 0,
            self.spec_played_in_game_size() >= 0,
    {
    }

    /// The sum of the sizes of all parts.
    pub open spec fn spec_total_size(&self) -> int {
        self.spec_to_explore_size() + self.spec_played_with_size() + self.spec_played_on_table_size()
            + self.spec_played_in_round_size() + self.spec_played_in_game_size()
    }

    /// The sizes for `tables` and `rounds`, with words of `t_bit_count` bits.
    fn new(tables: &[usize], rounds: usize, t_bit_count: usize) -> (r: Self)
        requires
            sizes_fit(tables@, rounds as int, t_bit_count as int),
        ensures
            ({
                let p = seq_sum(tables@);
                let w = div_ceil(p, t_bit_count as int);
                let t = tables@.len() as int;
                &&& r.spec_player_bit_word_count() == w
                &&& r.spec_played_with_size() == w * p
                &&& r.spec_played_on_table_size() == w * t
                &&& r.spec_played_in_round_size() == w * rounds
                &&& r.spec_played_in_game_size() == w * t * rounds
                &&& r.spec_to_explore_size() == div_ceil(rounds * t * 2, t_bit_count as int)
            }),
    {
        let player_count = sum_tables(tables);
        let player_bit_word_count = ceil_div(player_count, t_bit_count);
        let played_with_size = player_bit_word_count * player_count;
        let played_on_table_size = player_bit_word_count * tables.len();
        let played_in_round_size = player_bit_word_count * rounds;
        let played_in_game_size = player_bit_word_count * tables.len() * rounds;
        let to_explore_size = ceil_div(rounds * tables.len() * 2, t_bit_count);
        Self {
            player_bit_word_count,
            to_explore_size,
            played_with_size,
            played_on_table_size,
            played_in_round_size,
            played_in_game_size,
        }
    }

    pub fn get_player_bit_word_count(&self) -> (r: usize)
        ensures
            r == self.spec_player_bit_word_count(),
    {
        self.player_bit_word_count
    }

    pub fn get_to_explore_size(&self) -> (r: usize)
        ensures
            r == self.spec_to_explore_size(),
    {
        self.to_explore_size
    }

    pub fn get_played_with_size(&self) -> (r: usize)
        ensures
            r == self.spec_played_with_size(),
    {
        self.played_with_size
    }

    pub fn get_played_on_table_size(&self) -> (r: usize)
        ensures
            r == self.spec_played_on_table_size(),
    {
        self.played_on_table_size
    }

    pub fn get_played_in_round_size(&self) -> (r: usize)
        ensures
            r == self.spec_played_in_round_size(),
    {
        self.played_in_round_size
    }

    pub fn get_played_in_game_size(&self) -> (r: usize)
        ensures
            r == self.spec_played_in_game_size(),
    {
        self.played_in_game_size
    }

    /// The size of the potential-in-game part, the same as the played-in-game part.
    pub fn get_potential_in_game_size(&self) -> (r: usize)
        ensures
            r == self.spec_played_in_game_size(),
    {
        self.played_in_game_size
    }

    pub fn get_total_size(&self) -> (r: usize)
        requires
            self.spec_total_size() <= usize::MAX,
        ensures
            r == self.spec_total_size(),
    {
        self.to_explore_size + self.played_with_size + self.played_on_table_size
            + self.played_in_round_size + self.played_in_game_size
    }
}


/// `q * w + r` divided by `w` is `q`, with remainder `r`.
proof fn lemma_div_mod_word(q: int, r: int, w: int)
    requires
        w > 0,
        0 <= r < w,
    ensures
        (q * w + r) / w == q,
        (q * w + r) % w == r,
{
    vstd::arithmetic::div_mod::lemma_fundamental_div_mod_converse_div(q * w + r, w, q, r);
    vstd::arithmetic::div_mod::lemma_fundamental_div_mod_converse_mod(q * w + r, w, q, r);
}

/// `q * w + r` divided by `w` is `q`, with remainder `r`.
pub proof fn lemma_div_mod_pub(q: int, r: int, w: int)
    requires
        w > 0,
        0 <= r < w,
    ensures
        (q * w + r) / w == q,
        (q * w + r) % w == r,
{
    lemma_div_mod_word(q, r, w);
}

/// Every number is its round part shifted back plus its table part.
proof fn lemma_split_number(n: usize, d: usize)
    by (bit_vector)
    requires
        d < usize::BITS,
    ensures
        ((n >> d) << d) + (n ^ ((n >> d) << d)) == n,
{
}

/// Whether `2^d` is the smallest power of two that is at least `tables`.
pub open spec fn is_divisor_for(d: u32, tables: usize) -> bool {
    &&& pow2(d as nat) >= tables
    &&& (d == 0 || pow2((d - 1) as nat) < tables)
}

/// The number of the bit that stands for `table` in `round`: the round
/// shifted left by `divisor`, plus the table.
pub open spec fn explore_number(round: usize, table: usize, divisor: u32) -> int {
    (round << (divisor as usize)) + table
}

/// The round and table that the bit number `n` stands for.
pub open spec fn split_number(n: usize, divisor: u32) -> (usize, usize) {
    let round = n >> (divisor as usize);
    (round, n ^ (round << (divisor as usize)))
}

/// The smallest number of a non-empty set of numbers.
pub open spec fn min_of(s: Set<int>) -> int {
    choose|n: int| s.contains(n) && forall|m: int| s.contains(m) ==> n <= m
}

/// A finite set of tables still to explore, each a bit of a run of words; the
/// bit of a table in a round is `(round << divisor) + table`.
pub struct ToExplore<T: Word> {
    data: Vec<T>,
    divisor: u32,
}

impl<T: Word> ToExplore<T> {
    /// The numbers whose bits are set in `data`.
    pub open spec fn numbers_of(data: Seq<T>) -> Set<int> {
        Set::new(
            |n: int|
                0 <= n < data.len() * T::spec_width() && data[n / T::spec_width()].has_bit(
                    n % T::spec_width(),
                ),
        )
    }

    /// The numbers of the tables still to explore.
    pub closed spec fn numbers(&self) -> Set<int> {
        Self::numbers_of(self.data@)
    }

    pub closed spec fn data_spec(&self) -> Seq<T> {
        self.data@
    }

    pub closed spec fn divisor_spec(&self) -> u32 {
        self.divisor
    }

    /// The bit numbers fit in a `usize`, and the round shift is a valid shift.
    pub closed spec fn wf(&self) -> bool {
        &&& self.data@.len() * T::spec_width() <= usize::MAX
        &&& self.divisor < usize::BITS
    }

    /// The smallest `d` whose power of two is at least `tables`.
    pub fn calc_divisor(tables: usize) -> (r: u32)
        requires
            tables <= usize::MAX / 2 + 1,
        ensures
            is_divisor_for(r, tables),
            r < usize::BITS,
    {
        let mut d: u32 = 0;
        let mut p: usize = 1;
        proof {
            vstd::arithmetic::power2::lemma2_to64();
            assert(usize::BITS == 32 || usize::BITS == 64);
        }
        while p < tables
            invariant
                p == pow2(d as nat),
                p >= 1,
                d == 0 || pow2((d - 1) as nat) < tables,
                tables <= usize::MAX / 2 + 1,
                d < usize::BITS,
                usize::BITS == 32 || usize::BITS == 64,
            decreases usize::BITS - d,
        {
            proof {
                lemma_pow2_unfold((d + 1) as nat);
                if d + 1 >= usize::BITS {
                    assert(d == usize::BITS - 1);
                    vstd::arithmetic::power2::lemma2_to64();
                    vstd::arithmetic::power2::lemma2_to64_rest();
                    assert(false);
                }
            }
            p = p * 2;
            d = d + 1;
        }
        d
    }

    pub fn new(block: Vec<T>, tables: usize) -> (r: Self)
        requires
            tables <= usize::MAX / 2 + 1,
            block@.len() * T::spec_width() <= usize::MAX,
        ensures
            r.wf(),
            r.data_spec() == block@,
            is_divisor_for(r.divisor_spec(), tables),
    {
        let divisor = Self::calc_divisor(tables);
        Self::new_with_power(block, divisor)
    }

    pub fn new_with_power(block: Vec<T>, divisor: u32) -> (r: Self)
        requires
            divisor < usize::BITS,
            block@.len() * T::spec_width() <= usize::MAX,
        ensures
            r.wf(),
            r.data_spec() == block@,
            r.divisor_spec() == divisor,
    {
        Self { data: block, divisor }
    }

    /// A set with the same words and divisor.
    pub fn copy(&self) -> (r: Self)
        ensures
            r.data_spec() == self.data_spec(),
            r.divisor_spec() == self.divisor_spec(),
            r.numbers() == self.numbers(),
            self.wf() ==> r.wf(),
    {
        let mut data: Vec<T> = Vec::new();
        let mut i: usize = 0;
        while i < self.data.len()
            invariant
                i <= self.data@.len(),
                data@ == self.data@.subrange(0, i as int),
            decreases self.data@.len() - i,
        {
            data.push(self.data[i]);
            i = i + 1;
        }
        assert(data@ =~= self.data@);
        Self { data, divisor: self.divisor }
    }

    pub fn get_data(&self) -> (r: &[T])
        ensures
            r@ == self.data_spec(),
    {
        self.data.as_slice()
    }

    /// Replaces the words with a copy of `src`, which has as many words.
    pub fn copy_from(&mut self, src: &[T])
        requires
            src@.len() == old(self).data_spec().len(),
        ensures
            final(self).data_spec() == src@,
            final(self).divisor_spec() == old(self).divisor_spec(),
            old(self).wf() ==> final(self).wf(),
    {
        let mut i: usize = 0;
        while i < src.len()
            invariant
                i <= src@.len(),
                self.data@.len() == src@.len(),
                self.divisor == old(self).divisor,
                forall|j: int| 0 <= j < i ==> self.data@[j] == src@[j],
            decreases src@.len() - i,
        {
            self.data.set(i, src[i]);
            i = i + 1;
        }
        assert(self.data@ =~= src@);
    }

    /// Marks the table `table` of round `round` as to explore (`state`), or flips
    /// its mark (not `state`).
    pub fn set(&mut self, round: usize, table: usize, state: bool)
        requires
            old(self).wf(),
            0 <= explore_number(round, table, old(self).divisor_spec()) < old(self).data_spec().len()
                * T::spec_width(),
        ensures
            final(self).wf(),
            final(self).divisor_spec() == old(self).divisor_spec(),
            final(self).data_spec().len() == old(self).data_spec().len(),
            ({
                let n = explore_number(round, table, old(self).divisor_spec());
                if state {
                    final(self).numbers() == old(self).numbers().insert(n)
                } else if old(self).numbers().contains(n) {
                    final(self).numbers() == old(self).numbers().remove(n)
                } else {
                    final(self).numbers() == old(self).numbers().insert(n)
                }
            }),
    {
        let w = T::width();
        let number = (round << self.divisor as usize) + table;
        let index = number / w;
        proof {
            self.data@[0].lemma_width();
            assert(index * w <= number) by (nonlinear_arith)
                requires index == number / w, w > 0;
            assert(index < self.data@.len()) by (nonlinear_arith)
                requires index == number / w, w > 0, number < self.data@.len() * w;
            assert(number - index * w == number % w) by (nonlinear_arith)
                requires index == number / w, w > 0;
            assert(number % w < w) by (nonlinear_arith)
                requires w > 0;
        }
        let pos = number - index * w;
        let old_word = self.data[index];
        if state {
            self.data.set(index, old_word.with_bit(pos));
        } else {
            self.data.set(index, old_word.toggle_bit(pos));
        }
        proof {
            let n = number as int;
            let wi = w as int;
            let old_nums = Self::numbers_of(old(self).data@);
            let new_nums = Self::numbers_of(self.data@);
            assert forall|m: int| #[trigger] new_nums.contains(m) <==> (if state {
                old_nums.insert(n)
            } else if old_nums.contains(n) {
                old_nums.remove(n)
            } else {
                old_nums.insert(n)
            }).contains(m) by {
                if 0 <= m < self.data@.len() * wi {
                    assert(0 <= m / wi < self.data@.len()) by (nonlinear_arith)
                        requires 0 <= m < self.data@.len() * wi, wi > 0;
                    assert(0 <= m % wi < wi) by (nonlinear_arith)
                        requires wi > 0;
                    if m / wi == index {
                        if m % wi == pos {
                            assert(m == n) by (nonlinear_arith)
                                requires m / wi == index, m % wi == pos, index * wi + pos == n, wi > 0;
                        } else {
                            assert(m != n);
                        }
                    } else {
                        assert(m != n);
                    }
                }
            }
            assert(new_nums =~= (if state {
                old_nums.insert(n)
            } else if old_nums.contains(n) {
                old_nums.remove(n)
            } else {
                old_nums.insert(n)
            }));
        }
    }

    /// Walks the numbers of the set, smallest first.
    pub fn iter_mut(self) -> (r: ToExploreIter<T>)
        requires
            self.wf(),
            self.data_spec().len() > 0,
        ensures
            r.wf(),
            r.to_explore_spec() == self,
            r.pending() == self.numbers(),
    {
        ToExploreIter::new(self)
    }
}

/// A walk over the numbers of a `ToExplore`, smallest first. Numbers may be
/// removed from the set while it is walked.
pub struct ToExploreIter<T: Word> {
    to_explore: ToExplore<T>,
    current_block: Option<T>,
    index: usize,
}

impl<T: Word> ToExploreIter<T> {
    pub closed spec fn to_explore_spec(&self) -> ToExplore<T> {
        self.to_explore
    }

    /// The numbers not yet handed out: the set bits left in the current word,
    /// and those of the words after it.
    pub closed spec fn pending(&self) -> Set<int> {
        match self.current_block {
            Some(c) => Self::pending_set(self.to_explore.data@, self.index as int, c),
            None => Set::empty(),
        }
    }

    /// The numbers of the set bits of `c`, standing for word `index`, and of
    /// the words of `data` after it.
    pub open spec fn pending_set(data: Seq<T>, index: int, c: T) -> Set<int> {
        let w = T::spec_width();
        Set::new(
            |n: int|
                0 <= n && ((n / w == index && c.has_bit(n % w)) || (index < n / w < data.len()
                    && data[n / w].has_bit(n % w))),
        )
    }

    /// The number of the word being walked.
    pub closed spec fn index_spec(&self) -> int {
        self.index as int
    }

    pub closed spec fn wf(&self) -> bool {
        &&& self.to_explore.wf()
        &&& self.index < self.to_explore.data@.len()
        &&& self.current_block is Some
    }

    pub fn new(to_explore: ToExplore<T>) -> (r: Self)
        requires
            to_explore.wf(),
            to_explore.data_spec().len() > 0,
        ensures
            r.wf(),
            r.to_explore_spec() == to_explore,
            r.pending() == to_explore.numbers(),
            r.index_spec() == 0,
    {
        let first = to_explore.data[0];
        let r = Self { current_block: Some(first), to_explore, index: 0 };
        proof {
            first.lemma_width();
            let w = T::spec_width();
            assert forall|n: int| #[trigger] r.pending().contains(n) <==> to_explore.numbers().contains(n) by {
                if 0 <= n {
                    assert(n / w >= 0);
                    if n < to_explore.data@.len() * w {
                        assert(n / w < to_explore.data@.len()) by (nonlinear_arith)
                            requires 0 <= n < to_explore.data@.len() * w, w > 0;
                    } else {
                        assert(n / w >= to_explore.data@.len()) by (nonlinear_arith)
                            requires n >= to_explore.data@.len() * w, w > 0;
                    }
                }
            }
            assert(r.pending() =~= to_explore.numbers());
        }
        r
    }

    /// Gives back the set being walked.
    pub fn into_to_explore(self) -> (r: ToExplore<T>)
        ensures
            r == self.to_explore_spec(),
    {
        self.to_explore
    }

    pub fn get_data(&self) -> (r: &[T])
        ensures
            r@ == self.to_explore_spec().data_spec(),
    {
        self.to_explore.get_data()
    }

    /// Flips the mark of `table` in `round` in the set being walked; the walk
    /// sees the change only for a number in a word after the current one.
    pub fn remove(&mut self, round: usize, table: usize)
        requires
            old(self).wf(),
            0 <= explore_number(round, table, old(self).to_explore_spec().divisor_spec()) < old(
                self,
            ).to_explore_spec().data_spec().len() * T::spec_width(),
        ensures
            final(self).wf(),
            final(self).index_spec() == old(self).index_spec(),
            final(self).to_explore_spec().divisor_spec() == old(self).to_explore_spec().divisor_spec(),
            final(self).to_explore_spec().data_spec().len() == old(self).to_explore_spec().data_spec().len(),
            ({
                let n = explore_number(round, table, old(self).to_explore_spec().divisor_spec());
                let toggled = if old(self).to_explore_spec().numbers().contains(n) {
                    old(self).to_explore_spec().numbers().remove(n)
                } else {
                    old(self).to_explore_spec().numbers().insert(n)
                };
                &&& final(self).to_explore_spec().numbers() == toggled
                &&& n / T::spec_width() <= old(self).index_spec() ==> final(self).pending() == old(
                    self,
                ).pending()
                &&& n / T::spec_width() > old(self).index_spec() ==> final(self).pending() == (
                if old(self).pending().contains(n) {
                    old(self).pending().remove(n)
                } else {
                    old(self).pending().insert(n)
                })
            }),
    {
        let ghost old_data = self.to_explore.data@;
        self.to_explore.set(round, table, false);
        proof {
            let w = T::spec_width();
            let n = explore_number(round, table, old(self).to_explore.divisor);
            let new_data = self.to_explore.data@;
            let c = self.current_block.unwrap();
            c.lemma_width();
            let oldp = old(self).pending();
            let newp = self.pending();
            assert forall|m: int| 0 <= m && #[trigger] (m / w) < new_data.len() implies {
                &&& new_data[m / w].has_bit(m % w) == ToExplore::<T>::numbers_of(new_data).contains(m)
                &&& old_data[m / w].has_bit(m % w) == ToExplore::<T>::numbers_of(old_data).contains(m)
            } by {
                assert(m < new_data.len() * w) by (nonlinear_arith)
                    requires 0 <= m, m / w < new_data.len(), w > 0;
            }
            assert(n / w >= 0) by (nonlinear_arith) requires w > 0, n >= 0;
            assert forall|m: int| #[trigger] newp.contains(m) <==> (if n / w <= self.index {
                oldp
            } else if oldp.contains(n) {
                oldp.remove(n)
            } else {
                oldp.insert(n)
            }).contains(m) by {
                if 0 <= m {
                    assert(m / w >= 0) by (nonlinear_arith) requires w > 0, m >= 0;
                }
            }
            if n / w <= self.index {
                assert(newp =~= oldp);
            } else {
                assert(newp =~= (if oldp.contains(n) { oldp.remove(n) } else { oldp.insert(n) }));
            }
        }
    }

    /// Hands out the smallest number not yet handed out, as its round and table.
    pub fn next(&mut self) -> (r: Option<(usize, usize)>)
        requires
            old(self).wf(),
        ensures
            final(self).wf(),
            final(self).to_explore_spec() == old(self).to_explore_spec(),
            final(self).index_spec() >= old(self).index_spec(),
            old(self).pending().is_empty() ==> r is None && final(self).pending() == old(self).pending(),
            !old(self).pending().is_empty() ==> {
                let n = min_of(old(self).pending());
                &&& old(self).pending().contains(n)
                &&& forall|m: int| old(self).pending().contains(m) ==> n <= m
                &&& 0 <= n <= usize::MAX
                &&& n / T::spec_width() == final(self).index_spec()
                &&& r == Some(split_number(n as usize, old(self).to_explore_spec().divisor_spec()))
                &&& final(self).pending() == old(self).pending().remove(n)
            },
    {
        let w = T::width();
        let len = self.to_explore.data.len();
        let mut current = self.current_block.unwrap();
        let ghost data = self.to_explore.data@;
        let ghost wi = w as int;
        proof {
            current.lemma_width();
        }
        while current.is_zero()
            invariant
                self.to_explore == old(self).to_explore,
                self.to_explore.wf(),
                self.current_block == old(self).current_block,
                data == self.to_explore.data@,
                len == data.len(),
                wi == w,
                wi == T::spec_width(),
                8 <= wi <= 64,
                self.index < len,
                self.index >= old(self).index,
                Self::pending_set(data, self.index as int, current) == old(self).pending(),
            decreases len - self.index,
        {
            let ghost p0 = Self::pending_set(data, self.index as int, current);
            if self.index + 1 >= len {
                proof {
                    assert forall|m: int| !p0.contains(m) by {
                        if 0 <= m {
                            assert(m / wi >= 0) by (nonlinear_arith) requires wi > 0, m >= 0;
                        }
                    }
                    assert(p0 =~= Set::empty());
                }
                self.current_block = Some(current);
                return None;
            }
            self.index = self.index + 1;
            current = self.to_explore.data[self.index];
            proof {
                let p1 = Self::pending_set(data, self.index as int, current);
                assert(p1 =~= p0);
            }
        }
        proof {
            current.lemma_width();
        }
        let tz = current.trailing_zeros();
        proof {
            assert(tz < wi);
            assert(current.has_bit(tz as int));
        }
        let ghost before = Self::pending_set(data, self.index as int, current);
        let next_current = current.toggle_bit(tz as usize);
        self.current_block = Some(next_current);
        proof {
            assert(self.index * wi + tz < len * wi) by (nonlinear_arith)
                requires self.index < len, tz < wi;
            assert(self.index * wi + tz <= usize::MAX);
        }
        let number = self.index * w + tz as usize;
        let round = number >> (self.to_explore.divisor as usize);
        let table = number ^ (round << (self.to_explore.divisor as usize));
        proof {
            let n = number as int;
            lemma_div_mod_word(self.index as int, tz as int, wi);
            assert(n == self.index * wi + tz);
            assert(n / wi == self.index);
            assert(n % wi == tz);
            assert(before.contains(n));
            assert forall|m: int| before.contains(m) implies n <= m by {
                assert(m / wi >= 0) by (nonlinear_arith) requires wi > 0, m >= 0;
                assert(m == (m / wi) * wi + m % wi) by (nonlinear_arith) requires wi > 0;
                assert(0 <= m % wi < wi) by (nonlinear_arith) requires wi > 0;
                let q = m / wi;
                let r = m % wi;
                if q == self.index {
                    if r < tz {
                        assert(!current.has_bit(r));
                    }
                    assert(r >= tz);
                    assert(m == self.index * wi + r);
                } else {
                    assert(q >= self.index + 1);
                    assert(q * wi >= (self.index + 1) * wi) by (nonlinear_arith)
                        requires q >= self.index + 1, wi > 0;
                    assert((self.index + 1) * wi == self.index * wi + wi) by (nonlinear_arith);
                }
            }
            assert(min_of(before) == n) by {
                let k = min_of(before);
                assert(before.contains(k) && forall|m: int| before.contains(m) ==> k <= m);
            }
            let after = Self::pending_set(data, self.index as int, next_current);
            assert forall|m: int| #[trigger] after.contains(m) <==> before.remove(n).contains(m) by {
                if 0 <= m && m / wi == self.index {
                    assert(m == (m / wi) * wi + m % wi) by (nonlinear_arith) requires wi > 0;
                    assert(0 <= m % wi < wi) by (nonlinear_arith) requires wi > 0;
                    if m % wi == tz {
                        assert(m == n);
                    } else {
                        assert(m != n);
                    }
                }
            }
            assert(after =~= before.remove(n));
        }
        Some((round, table))
    }
}


/// A round number known to lie in a round range.
#[derive(Copy, Clone, Debug)]
pub struct Round(usize);

impl Round {
    pub closed spec fn value(&self) -> usize {
        self.0
    }

    pub fn as_usize(self) -> (r: usize)
        ensures
            r == self.value(),
    {
        self.0
    }
}

/// A range of round numbers, walked from its start.
#[derive(Copy, Clone, Debug)]
pub struct RoundRange {
    start: usize,
    end: usize,
}

impl RoundRange {
    pub closed spec fn start_spec(&self) -> usize {
        self.start
    }

    pub closed spec fn end_spec(&self) -> usize {
        self.end
    }

    pub fn new(start: usize, end: usize) -> (r: Self)
        ensures
            r.start_spec() == start,
            r.end_spec() == end,
    {
        Self { start, end }
    }

    /// The range without its first `n` numbers.
    pub fn skip(self, n: usize) -> (r: Self)
        requires
            self.start_spec() + n <= usize::MAX,
        ensures
            r.start_spec() == self.start_spec() + n,
            r.end_spec() == self.end_spec(),
    {
        Self { start: self.start + n, end: self.end }
    }

    pub fn next(&mut self) -> (r: Option<Round>)
        ensures
            final(self).end_spec() == old(self).end_spec(),
            old(self).start_spec() < old(self).end_spec() ==> (r matches Some(x) && x.value()
                == old(self).start_spec()) && final(self).start_spec() == old(self).start_spec() + 1,
            old(self).start_spec() >= old(self).end_spec() ==> r is None && *final(self) == *old(self),
    {
        if self.start < self.end {
            let result = self.start;
            self.start = self.start + 1;
            Some(Round(result))
        } else {
            None
        }
    }

    /// `n` as a round, when it lies in the range.
    pub fn convert_usize(&self, n: usize) -> (r: Option<Round>)
        ensures
            self.start_spec() <= n < self.end_spec() ==> (r matches Some(x) && x.value() == n),
            !(self.start_spec() <= n < self.end_spec()) ==> r is None,
    {
        if n >= self.start && n < self.end {
            Some(Round(n))
        } else {
            None
        }
    }
}

/// A table number known to lie in a table range.
#[derive(Copy, Clone, Debug)]
pub struct Table(usize);

impl Table {
    pub closed spec fn value(&self) -> usize {
        self.0
    }

    pub fn as_usize(self) -> (r: usize)
        ensures
            r == self.value(),
    {
        self.0
    }
}

/// A range of table numbers, walked from its start.
#[derive(Copy, Clone, Debug)]
pub struct TableRange {
    start: usize,
    end: usize,
}

impl TableRange {
    pub closed spec fn start_spec(&self) -> usize {
        self.start
    }

    pub closed spec fn end_spec(&self) -> usize {
        self.end
    }

    pub fn new(start: usize, end: usize) -> (r: Self)
        ensures
            r.start_spec() == start,
            r.end_spec() == end,
    {
        Self { start, end }
    }

    /// The range without its first `n` numbers.
    pub fn skip(self, n: usize) -> (r: Self)
        requires
            self.start_spec() + n <= usize::MAX,
        ensures
            r.start_spec() == self.start_spec() + n,
            r.end_spec() == self.end_spec(),
    {
        Self { start: self.start + n, end: self.end }
    }

    pub fn next(&mut self) -> (r: Option<Table>)
        ensures
            final(self).end_spec() == old(self).end_spec(),
            old(self).start_spec() < old(self).end_spec() ==> (r matches Some(x) && x.value()
                == old(self).start_spec()) && final(self).start_spec() == old(self).start_spec() + 1,
            old(self).start_spec() >= old(self).end_spec() ==> r is None && *final(self) == *old(self),
    {
        if self.start < self.end {
            let result = self.start;
            self.start = self.start + 1;
            Some(Table(result))
        } else {
            None
        }
    }

    /// `n` as a table, when it lies in the range.
    pub fn convert_usize(&self, n: usize) -> (r: Option<Table>)
        ensures
            self.start_spec() <= n < self.end_spec() ==> (r matches Some(x) && x.value() == n),
            !(self.start_spec() <= n < self.end_spec()) ==> r is None,
    {
        if n >= self.start && n < self.end {
            Some(Table(n))
        } else {
            None
        }
    }
}

/// Where each part of a search buffer starts, in words. The to-explore set
/// comes first; the other offsets count from its end.
#[derive(Debug)]
struct Offsets {
    players_placed_counter_offset: usize,
    empty_table_count_offset: usize,
    to_explore_offset: usize,
    to_explore_size: usize,
    divisor: usize,
    played_with_offset: usize,
    played_on_table_total_offset: usize,
    played_in_round_offset: usize,
    played_on_table_offset: usize,
    potential_on_table_offset: usize,
    played_on_table_size: usize,
    block_size: usize,
}

impl Offsets {
    fn new(
        to_explore_size: usize,
        divisor: usize,
        played_with_size: usize,
        played_on_table_total_size: usize,
        played_in_round_size: usize,
        played_on_table_size: usize,
    ) -> (r: Self)
        requires
            2 + played_with_size + played_on_table_total_size + played_in_round_size + 2
                * played_on_table_size + to_explore_size <= usize::MAX,
        ensures
            r.players_placed_counter_offset == 0,
            r.empty_table_count_offset == 1,
            r.to_explore_offset == 0,
            r.to_explore_size == to_explore_size,
            r.divisor == divisor,
            r.played_with_offset == 2,
            r.played_on_table_total_offset == 2 + played_with_size,
            r.played_in_round_offset == 2 + played_with_size + played_on_table_total_size,
            r.played_on_table_offset == 2 + played_with_size + played_on_table_total_size
                + played_in_round_size,
            r.potential_on_table_offset == 2 + played_with_size + played_on_table_total_size
                + played_in_round_size + played_on_table_size,
            r.played_on_table_size == played_on_table_size,
            r.block_size == 2 + played_with_size + played_on_table_total_size + played_in_round_size
                + 2 * played_on_table_size + to_explore_size,
    {
        let to_explore_offset: usize = 0;
        let players_placed_counter_offset: usize = 0;
        let empty_table_count_offset = players_placed_counter_offset + 1;
        let played_with_offset = empty_table_count_offset + 1;
        let played_on_table_total_offset = played_with_offset + played_with_size;
        let played_in_round_offset = played_on_table_total_offset + played_on_table_total_size;
        let played_on_table_offset = played_in_round_offset + played_in_round_size;
        let potential_on_table_offset = played_on_table_offset + played_on_table_size;
        let block_size = potential_on_table_offset + played_on_table_size + to_explore_size;
        Self {
            players_placed_counter_offset,
            empty_table_count_offset,
            to_explore_offset,
            to_explore_size,
            divisor,
            played_with_offset,
            played_on_table_total_offset,
            played_in_round_offset,
            played_on_table_offset,
            potential_on_table_offset,
            played_on_table_size,
            block_size,
        }
    }

    fn potential_on_table(&self) -> (r: usize)
        ensures
            r == self.potential_on_table_offset,
    {
        self.potential_on_table_offset
    }
}

/// Whether a solver for `tables` and `rounds` fits the machine: the player
/// count, the buffer layout and the to-explore bit numbers fit in a `usize`.
pub open spec fn scheduler_fits(tables: Seq<usize>, rounds: int) -> bool {
    let p = seq_sum(tables);
    let w = div_ceil(p, 64);
    let t = tables.len() as int;
    &&& p <= usize::MAX
    &&& t <= usize::MAX / 2 + 1
    &&& rounds * t <= usize::MAX
    &&& 2 + w * p + w * t + w * rounds + 2 * (w * t * rounds) + rounds * t * 2 + 64 <= usize::MAX
}

/// The state of a search, read from a buffer: the placement counter, the count
/// of tables left to fill, and the sets of players of each part.
#[verifier::ext_equal]
pub struct Grid {
    /// The players placed so far.
    pub placed: u64,
    /// The tables left to fill.
    pub empty: u64,
    /// For each player, the players it shares a table with.
    pub played_with: Seq<Set<int>>,
    /// For each table, the players placed on it in any round.
    pub played_on_table_total: Seq<Set<int>>,
    /// For each round, the players placed in it.
    pub played_in_round: Seq<Set<int>>,
    /// For each round and table (`round * tables + table`), the players placed there.
    pub played_on_table: Seq<Set<int>>,
    /// For each round and table, the players that may still be placed there.
    pub potential_on_table: Seq<Set<int>>,
}

/// Places `player` on `table` of `round` in the state `g` of a search with
/// `players` players and `tables` tables.
pub open spec fn apply_grid(g: Grid, tables: int, players: int, round: int, table: int, player: int) -> Grid {
    let c0 = round * tables + table;
    let with_fixed = g.played_on_table[c0];
    Grid {
        placed: (g.placed + 1) as u64,
        empty: g.empty,
        played_with: Seq::new(
            players as nat,
            |p: int|
                if p == player {
                    g.played_with[p].union(with_fixed)
                } else if with_fixed.contains(p) {
                    g.played_with[p].insert(player)
                } else {
                    g.played_with[p]
                },
        ),
        played_on_table_total: g.played_on_table_total.update(
            table,
            g.played_on_table_total[table].insert(player),
        ),
        played_in_round: g.played_in_round.update(round, g.played_in_round[round].insert(player)),
        played_on_table: g.played_on_table.update(c0, with_fixed.insert(player)),
        potential_on_table: Seq::new(
            g.potential_on_table.len(),
            |c: int|
                if c == c0 {
                    g.potential_on_table[c].remove(player).difference(g.played_with[player]).insert(
                        player,
                    )
                } else if c / tables == round || c % tables == table {
                    g.potential_on_table[c].remove(player)
                } else {
                    g.potential_on_table[c]
                },
        ),
    }
}

/// Solves for tables of the given sizes over the given number of rounds, one
/// search buffer at a time.
#[derive(Debug)]
pub struct Scheduler<'a> {
    tables: &'a [usize],
    round_range: RoundRange,
    table_range: TableRange,
    rounds: usize,
    player_count: usize,
    player_bit_word_count: usize,
    offsets: Offsets,
}

/// A search buffer, split into its to-explore set and the rest.
pub struct Schedule {
    to_explore: ToExplore<u64>,
    rest: Vec<u64>,
}

impl Schedule {
    /// The words after the to-explore set.
    pub closed spec fn rest_spec(&self) -> Seq<u64> {
        self.rest@
    }

    /// The tables still to explore.
    pub closed spec fn to_explore_spec(&self) -> ToExplore<u64> {
        self.to_explore
    }
}

impl<'a> Scheduler<'a> {
    pub closed spec fn spec_tables(&self) -> Seq<usize> {
        self.tables@
    }

    pub closed spec fn spec_rounds(&self) -> int {
        self.rounds as int
    }

    /// The number of players: the sum of the table sizes.
    pub closed spec fn spec_player_count(&self) -> int {
        self.player_count as int
    }

    /// The number of words of a set of players.
    pub closed spec fn spec_words(&self) -> int {
        self.player_bit_word_count as int
    }

    /// The power of two of the tables: `2^d` is the least power of two that is
    /// at least the table count. It sizes the to-explore words.
    pub closed spec fn spec_size_divisor(&self) -> int {
        self.offsets.divisor as int
    }

    /// The shift that separates rounds in to-explore bit numbers: the power of
    /// two of the size divisor, taken as a count of tables.
    pub closed spec fn spec_divisor(&self) -> int {
        (choose|s: u32| is_divisor_for(s, self.offsets.divisor)) as int
    }

    pub closed spec fn spec_to_explore_size(&self) -> int {
        self.offsets.to_explore_size as int
    }

    pub closed spec fn spec_block_size(&self) -> int {
        self.offsets.block_size as int
    }

    pub closed spec fn spec_with_off(&self) -> int {
        self.offsets.played_with_offset as int
    }

    pub closed spec fn spec_total_off(&self) -> int {
        self.offsets.played_on_table_total_offset as int
    }

    pub closed spec fn spec_round_off(&self) -> int {
        self.offsets.played_in_round_offset as int
    }

    pub closed spec fn spec_fixed_off(&self) -> int {
        self.offsets.played_on_table_offset as int
    }

    pub closed spec fn spec_potential_off(&self) -> int {
        self.offsets.potential_on_table_offset as int
    }

    /// The number of tables.
    pub open spec fn spec_table_count(&self) -> int {
        self.spec_tables().len() as int
    }

    /// The number of words after the to-explore set.
    pub open spec fn spec_rest_len(&self) -> int {
        self.spec_block_size() - self.spec_to_explore_size()
    }

    /// The layout of the buffer follows from the tables and the round count.
    pub open spec fn wf(&self) -> bool {
        let p = self.spec_player_count();
        let w = self.spec_words();
        let t = self.spec_table_count();
        let r = self.spec_rounds();
        &&& scheduler_fits(self.spec_tables(), r)
        &&& p == seq_sum(self.spec_tables())
        &&& w == div_ceil(p, 64)
        &&& is_divisor_for(self.spec_size_divisor() as u32, t as usize)
        &&& 0 <= self.spec_size_divisor() < usize::BITS
        &&& exists|s: u32| #[trigger] is_divisor_for(s, self.spec_size_divisor() as usize) && s < usize::BITS
        &&& self.spec_to_explore_size() == div_ceil(r * self.spec_size_divisor() * 2, 64)
        &&& self.spec_with_off() == 2
        &&& self.spec_total_off() == 2 + w * p
        &&& self.spec_round_off() == self.spec_total_off() + w * t
        &&& self.spec_fixed_off() == self.spec_round_off() + w * r
        &&& self.spec_potential_off() == self.spec_fixed_off() + w * t * r
        &&& self.spec_block_size() == self.spec_potential_off() + w * t * r + self.spec_to_explore_size()
        &&& self.internal_wf()
    }

    pub closed spec fn internal_wf(&self) -> bool {
        &&& self.round_range.start == 0
        &&& self.round_range.end == self.rounds
        &&& self.table_range.start == 0
        &&& self.table_range.end == self.tables@.len()
        &&& self.offsets.players_placed_counter_offset == 0
        &&& self.offsets.empty_table_count_offset == 1
        &&& self.offsets.played_on_table_size == self.player_bit_word_count * self.tables@.len() * self.rounds
    }

    /// The set of the players of the run of words at `base`.
    pub open spec fn set_at(&self, s: Seq<u64>, base: int) -> Set<int> {
        crate::bits::region(s, base, self.spec_words())
    }

    /// The state of the search held by the words `s` after the to-explore set.
    pub open spec fn grid(&self, s: Seq<u64>) -> Grid {
        let w = self.spec_words();
        let t = self.spec_table_count();
        let cells = self.spec_rounds() * t;
        Grid {
            placed: s[0],
            empty: s[1],
            played_with: Seq::new(
                self.spec_player_count() as nat,
                |p: int| self.set_at(s, self.spec_with_off() + cell(w, p)),
            ),
            played_on_table_total: Seq::new(
                t as nat,
                |i: int| self.set_at(s, self.spec_total_off() + cell(w, i)),
            ),
            played_in_round: Seq::new(
                self.spec_rounds() as nat,
                |i: int| self.set_at(s, self.spec_round_off() + cell(w, i)),
            ),
            played_on_table: Seq::new(
                cells as nat,
                |c: int| self.set_at(s, self.spec_fixed_off() + cell(w, c)),
            ),
            potential_on_table: Seq::new(
                cells as nat,
                |c: int| self.set_at(s, self.spec_potential_off() + cell(w, c)),
            ),
        }
    }

    /// The players: the numbers below the player count.
    pub open spec fn players(&self) -> Set<int> {
        Set::new(|p: int| 0 <= p < self.spec_player_count())
    }

    /// A buffer whose tables hold only players, placed or potential.
    pub open spec fn rest_wf(&self, s: Seq<u64>) -> bool {
        let g = self.grid(s);
        &&& s.len() >= self.spec_rest_len()
        &&& forall|c: int|
            0 <= c < g.played_on_table.len() ==> #[trigger] g.played_on_table[c].subset_of(
                self.players(),
            )
        &&& forall|c: int|
            0 <= c < g.potential_on_table.len() ==> #[trigger] g.potential_on_table[c].subset_of(
                self.players(),
            )
    }

    /// Places `player` on `table` of `round` in the state `g`.
    pub open spec fn apply_spec(&self, g: Grid, round: int, table: int, player: int) -> Grid {
        apply_grid(g, self.spec_table_count(), self.spec_player_count(), round, table, player)
    }

    pub fn new(tables: &'a [usize], rounds: usize) -> (r: Self)
        requires
            scheduler_fits(tables@, rounds as int),
        ensures
            r.wf(),
            r.spec_tables() == tables@,
            r.spec_rounds() == rounds,
    {
        let player_count = sum_tables(tables);
        let player_bit_word_count = ceil_div(player_count, 64);
        let ghost p = player_count as int;
        let ghost w = player_bit_word_count as int;
        let ghost t = tables@.len() as int;
        let ghost r = rounds as int;
        proof {
            assert(w <= p) by (nonlinear_arith)
                requires w == div_ceil(p, 64), p >= 0;
            assert(w * t >= 0 && w * r >= 0 && w * p >= 0) by (nonlinear_arith)
                requires w >= 0, t >= 0, r >= 0, p >= 0;
            assert(w * t * r >= 0) by (nonlinear_arith)
                requires w >= 0, t >= 0, r >= 0;
            assert(r * t * 2 >= 0) by (nonlinear_arith)
                requires t >= 0, r >= 0;
        }
        let played_with_size = player_bit_word_count * player_count;
        let played_on_table_total_size = player_bit_word_count * tables.len();
        let played_in_round_size = player_bit_word_count * rounds;
        let played_on_table_size = player_bit_word_count * tables.len() * rounds;
        let divisor = ToExplore::<u64>::calc_divisor(tables.len()) as usize;
        proof {
            assert(divisor <= t) by {
                if divisor > 0 {
                    vstd::arithmetic::power2::lemma_pow2_strictly_increases((divisor - 1) as nat, divisor as nat);
                    assert(pow2((divisor - 1) as nat) < t);
                    lemma_pow2_ge_exponent((divisor - 1) as nat);
                }
            }
            assert(r * divisor <= r * t) by (nonlinear_arith)
                requires divisor <= t, r >= 0;
            assert(r * divisor * 2 <= r * t * 2) by (nonlinear_arith)
                requires r * divisor <= r * t;
            assert(r * divisor * 2 >= 0) by (nonlinear_arith)
                requires r >= 0, divisor >= 0;
        }
        let to_explore_size = ceil_div(rounds * divisor * 2, 64);
        proof {
            let te = to_explore_size as int;
            assert(te <= r * divisor * 2) by (nonlinear_arith)
                requires te == div_ceil(r * divisor * 2, 64), r * divisor * 2 >= 0;
        }
        let offsets = Offsets::new(
            to_explore_size,
            divisor,
            played_with_size,
            played_on_table_total_size,
            played_in_round_size,
            played_on_table_size,
        );
        proof {
            lemma_divisor_exists(0, divisor);
        }
        Self {
            tables,
            player_count,
            round_range: RoundRange::new(0, rounds),
            table_range: TableRange::new(0, tables.len()),
            rounds,
            player_bit_word_count,
            offsets,
        }
    }

    /// The number of to-explore words at the start of a search buffer.
    pub fn get_to_explore_size(&self) -> (r: usize)
        requires
            self.wf(),
        ensures
            r == self.spec_to_explore_size(),
            r < self.spec_block_size(),
    {
        proof {
            self.lemma_layout();
        }
        self.offsets.to_explore_size
    }

    /// The number of words of a search buffer.
    pub fn get_block_size(&self) -> (r: usize)
        ensures
            r == self.spec_block_size(),
    {
        self.offsets.block_size
    }

    /// The number of bits of a buffer word.
    fn word_size() -> (r: usize)
        ensures
            r == 64,
    {
        proof {
            broadcast use vstd::layout::layout_of_primitives;
        }
        core::mem::size_of::<u64>() * 8
    }

    /// The word index and the in-word mask of `player`.
    fn get_byte_and_mask(player: usize) -> (r: (usize, u64))
        ensures
            r.0 == player / 64,
            r.1 == 1u64 << ((player % 64) as u64),
    {
        let byte = player / Self::word_size();
        let mask = 1u64 << ((player - (byte * Self::word_size())) as u64);
        (byte, mask)
    }
}

/// The start of run `i` of `w`-word runs.
pub open spec fn cell(w: int, i: int) -> int {
    w * i
}

/// Runs of `w` words follow one another without overlap.
proof fn lemma_cells(w: int, n: int)
    requires
        w >= 0,
        n >= 0,
    ensures
        cell(w, n) >= 0,
        forall|i: int| 0 <= i < n ==> 0 <= #[trigger] cell(w, i) && cell(w, i) + w <= cell(w, n),
        forall|i: int, j: int| 0 <= i < j ==> #[trigger] cell(w, i) + w <= #[trigger] cell(w, j),
{
    assert forall|i: int| 0 <= i < n implies 0 <= #[trigger] cell(w, i) && cell(w, i) + w <= cell(w, n) by {
        assert(0 <= w * i && w * i + w <= w * n) by (nonlinear_arith)
            requires 0 <= i < n, w >= 0;
    }
    assert forall|i: int, j: int| 0 <= i < j implies #[trigger] cell(w, i) + w <= #[trigger] cell(w, j) by {
        assert(w * i + w <= w * j) by (nonlinear_arith)
            requires 0 <= i < j, w >= 0;
    }
    assert(w * n >= 0) by (nonlinear_arith) requires w >= 0, n >= 0;
}

/// A power of two is above its exponent.
proof fn lemma_pow2_ge_exponent(e: nat)
    ensures
        pow2(e) > e,
    decreases e,
{
    if e == 0 {
        vstd::arithmetic::power2::lemma2_to64();
    } else {
        lemma_pow2_ge_exponent((e - 1) as nat);
        lemma_pow2_unfold(e);
        vstd::arithmetic::power2::lemma_pow2_pos((e - 1) as nat);
    }
}


/// Words that agree with `s` on a run agree on the numbers it holds.
proof fn lemma_region_same(s: Seq<u64>, s2: Seq<u64>, base: int, w: int)
    requires
        forall|j: int| base <= j < base + w ==> s2[j] == s[j],
    ensures
        crate::bits::region(s2, base, w) == crate::bits::region(s, base, w),
{
    assert forall|b: int| 0 <= b < w implies #[trigger] crate::bits::at(s2, base, b) == crate::bits::at(s, base, b) by {
        assert(s2[base + b] == s[base + b]);
    }
    crate::bits::lemma_region_frame(s2, s, base, w);
}

impl<'a> Scheduler<'a> {
    /// The facts about the layout that proofs about the buffer use.
    proof fn lemma_layout(&self)
        requires
            self.wf(),
        ensures
            self.spec_words() >= 0,
            self.spec_player_count() >= 0,
            self.spec_rounds() >= 0,
            self.spec_table_count() >= 0,
            self.spec_total_off() == self.spec_with_off() + cell(self.spec_words(), self.spec_player_count()),
            self.spec_round_off() == self.spec_total_off() + cell(self.spec_words(), self.spec_table_count()),
            self.spec_fixed_off() == self.spec_round_off() + cell(self.spec_words(), self.spec_rounds()),
            self.spec_potential_off() == self.spec_fixed_off() + cell(
                self.spec_words(),
                self.spec_rounds() * self.spec_table_count(),
            ),
            self.spec_rest_len() == self.spec_potential_off() + cell(
                self.spec_words(),
                self.spec_rounds() * self.spec_table_count(),
            ),
            self.spec_rest_len() <= usize::MAX,
            64 * self.spec_words() <= usize::MAX,
            self.spec_rounds() * self.spec_table_count() >= 0,
            self.spec_words() * 64 >= self.spec_player_count(),
            self.spec_player_count() > 0 ==> self.spec_words() * 64 < self.spec_player_count() + 64,
            forall|i: int| 0 <= i < self.spec_player_count() ==> 0 <= #[trigger] cell(self.spec_words(), i)
                && cell(self.spec_words(), i) + self.spec_words() <= cell(self.spec_words(), self.spec_player_count()),
            forall|i: int| 0 <= i < self.spec_table_count() ==> 0 <= #[trigger] cell(self.spec_words(), i)
                && cell(self.spec_words(), i) + self.spec_words() <= cell(self.spec_words(), self.spec_table_count()),
            forall|i: int| 0 <= i < self.spec_rounds() ==> 0 <= #[trigger] cell(self.spec_words(), i)
                && cell(self.spec_words(), i) + self.spec_words() <= cell(self.spec_words(), self.spec_rounds()),
            forall|i: int| 0 <= i < self.spec_rounds() * self.spec_table_count() ==> 0 <= #[trigger] cell(self.spec_words(), i)
                && cell(self.spec_words(), i) + self.spec_words() <= cell(self.spec_words(), self.spec_rounds() * self.spec_table_count()),
            forall|i: int, j: int| 0 <= i < j ==> #[trigger] cell(self.spec_words(), i) + self.spec_words() <= #[trigger] cell(self.spec_words(), j),
    {
        let w = self.spec_words();
        let p = self.spec_player_count();
        let t = self.spec_table_count();
        let r = self.spec_rounds();
        lemma_seq_sum_nonneg(self.spec_tables());
        assert(w >= 0);
        assert(r * t >= 0) by (nonlinear_arith) requires r >= 0, t >= 0;
        assert(w * t * r == w * (r * t)) by (nonlinear_arith);
        lemma_cells(w, p);
        lemma_cells(w, t);
        lemma_cells(w, r);
        lemma_cells(w, r * t);
        assert(w * 64 >= p && (p > 0 ==> w * 64 < p + 64)) by (nonlinear_arith)
            requires w == div_ceil(p, 64), p >= 0;
        assert(w * p >= p || p == 0) by (nonlinear_arith) requires w * 64 >= p, p >= 0, w >= 0;
        assert(w * t * r >= 0) by (nonlinear_arith) requires w >= 0, t >= 0, r >= 0;
        assert(r * self.spec_size_divisor() * 2 >= 0) by (nonlinear_arith)
            requires r >= 0, self.spec_size_divisor() >= 0;
        assert(self.spec_to_explore_size() >= 0);
    }

    /// Changing only the words in `[lo, hi)` leaves every run of the state that
    /// avoids them unchanged.
    proof fn lemma_grid_frame(&self, s: Seq<u64>, s2: Seq<u64>, lo: int, hi: int)
        requires
            self.wf(),
            s.len() == s2.len(),
            s.len() >= self.spec_rest_len(),
            forall|j: int| 0 <= j < s.len() && !(lo <= j < hi) ==> s2[j] == s[j],
        ensures
            forall|i: int|
                0 <= i < self.spec_player_count() && (self.spec_with_off() + cell(self.spec_words(), i)
                    + self.spec_words() <= lo || self.spec_with_off() + cell(self.spec_words(), i) >= hi)
                    ==> #[trigger] self.grid(s2).played_with[i] == self.grid(s).played_with[i],
            forall|i: int|
                0 <= i < self.spec_table_count() && (self.spec_total_off() + cell(self.spec_words(), i)
                    + self.spec_words() <= lo || self.spec_total_off() + cell(self.spec_words(), i) >= hi)
                    ==> #[trigger] self.grid(s2).played_on_table_total[i] == self.grid(s).played_on_table_total[i],
            forall|i: int|
                0 <= i < self.spec_rounds() && (self.spec_round_off() + cell(self.spec_words(), i)
                    + self.spec_words() <= lo || self.spec_round_off() + cell(self.spec_words(), i) >= hi)
                    ==> #[trigger] self.grid(s2).played_in_round[i] == self.grid(s).played_in_round[i],
            forall|i: int|
                0 <= i < self.spec_rounds() * self.spec_table_count() && (self.spec_fixed_off() + cell(
                    self.spec_words(),
                    i,
                ) + self.spec_words() <= lo || self.spec_fixed_off() + cell(self.spec_words(), i) >= hi)
                    ==> #[trigger] self.grid(s2).played_on_table[i] == self.grid(s).played_on_table[i],
            forall|i: int|
                0 <= i < self.spec_rounds() * self.spec_table_count() && (self.spec_potential_off()
                    + cell(self.spec_words(), i) + self.spec_words() <= lo || self.spec_potential_off()
                    + cell(self.spec_words(), i) >= hi)
                    ==> #[trigger] self.grid(s2).potential_on_table[i] == self.grid(s).potential_on_table[i],
    {
        let w = self.spec_words();
        self.lemma_layout();
        assert forall|i: int|
            0 <= i < self.spec_player_count() && (self.spec_with_off() + cell(w, i) + w <= lo
                || self.spec_with_off() + cell(w, i) >= hi) implies #[trigger] self.grid(s2).played_with[i]
            == self.grid(s).played_with[i] by {
            lemma_region_same(s, s2, self.spec_with_off() + cell(w, i), w);
        }
        assert forall|i: int|
            0 <= i < self.spec_table_count() && (self.spec_total_off() + cell(w, i) + w <= lo
                || self.spec_total_off() + cell(w, i) >= hi) implies #[trigger] self.grid(
                s2,
            ).played_on_table_total[i] == self.grid(s).played_on_table_total[i] by {
            lemma_region_same(s, s2, self.spec_total_off() + cell(w, i), w);
        }
        assert forall|i: int|
            0 <= i < self.spec_rounds() && (self.spec_round_off() + cell(w, i) + w <= lo
                || self.spec_round_off() + cell(w, i) >= hi) implies #[trigger] self.grid(s2).played_in_round[i]
            == self.grid(s).played_in_round[i] by {
            lemma_region_same(s, s2, self.spec_round_off() + cell(w, i), w);
        }
        assert forall|i: int|
            0 <= i < self.spec_rounds() * self.spec_table_count() && (self.spec_fixed_off() + cell(w, i)
                + w <= lo || self.spec_fixed_off() + cell(w, i) >= hi) implies #[trigger] self.grid(
                s2,
            ).played_on_table[i] == self.grid(s).played_on_table[i] by {
            lemma_region_same(s, s2, self.spec_fixed_off() + cell(w, i), w);
        }
        assert forall|i: int|
            0 <= i < self.spec_rounds() * self.spec_table_count() && (self.spec_potential_off() + cell(
                w,
                i,
            ) + w <= lo || self.spec_potential_off() + cell(w, i) >= hi) implies #[trigger] self.grid(
                s2,
            ).potential_on_table[i] == self.grid(s).potential_on_table[i] by {
            lemma_region_same(s, s2, self.spec_potential_off() + cell(w, i), w);
        }
    }
}


/// `r * tt + t` numbers the pairs below `(rr, tt)` one to one.
proof fn lemma_pair_index(r: int, t: int, rr: int, tt: int)
    requires
        0 <= r < rr,
        0 <= t < tt,
    ensures
        0 <= r * tt + t < rr * tt,
        (r * tt + t) / tt == r,
        (r * tt + t) % tt == t,
{
    assert(0 <= r * tt + t < rr * tt) by (nonlinear_arith)
        requires 0 <= r < rr, 0 <= t < tt;
    lemma_div_mod_word(r, t, tt);
}

/// Sets (`set`) or clears the bit of `player` in the run of `w` words at `base`.
fn put_player_bit(rest: &mut Vec<u64>, base: usize, w: usize, player: usize, set: bool)
    requires
        base + w <= old(rest)@.len(),
        player < 64 * w,
    ensures
        final(rest)@.len() == old(rest)@.len(),
        forall|j: int| 0 <= j < old(rest)@.len() && j != base + player / 64 ==> final(rest)@[j] == old(rest)@[j],
        base <= base + player / 64 < base + w,
        crate::bits::region(final(rest)@, base as int, w as int) == if set {
            crate::bits::region(old(rest)@, base as int, w as int).insert(player as int)
        } else {
            crate::bits::region(old(rest)@, base as int, w as int).remove(player as int)
        },
{
    let _n = rest.len();
    let k = base + player / 64;
    let mask = 1u64 << ((player % 64) as u64);
    proof {
        if set {
            crate::bits::lemma_region_set_bit(rest@, base as int, w as int, player as int);
        } else {
            crate::bits::lemma_region_clear_bit(rest@, base as int, w as int, player as int);
        }
    }
    if set {
        rest[k] = rest[k] | mask;
    } else {
        rest[k] = rest[k] & !mask;
    }
}

/// Combines the run of `w` words at `dst` with the run at `src`, word by word:
/// `and not` when `and_not`, else `or`.
fn combine_runs(rest: &mut Vec<u64>, dst: usize, src: usize, w: usize, and_not: bool)
    requires
        dst + w <= old(rest)@.len(),
        src + w <= old(rest)@.len(),
        src + w <= dst || dst + w <= src,
    ensures
        final(rest)@.len() == old(rest)@.len(),
        forall|j: int| 0 <= j < old(rest)@.len() && !(dst <= j < dst + w) ==> final(rest)@[j] == old(rest)@[j],
        crate::bits::region(final(rest)@, dst as int, w as int) == if and_not {
            crate::bits::region(old(rest)@, dst as int, w as int).difference(
                crate::bits::region(old(rest)@, src as int, w as int),
            )
        } else {
            crate::bits::region(old(rest)@, dst as int, w as int).union(
                crate::bits::region(old(rest)@, src as int, w as int),
            )
        },
{
    let ghost s0 = rest@;
    let _n = rest.len();
    let mut b: usize = 0;
    while b < w
        invariant
            b <= w,
            s0.len() <= usize::MAX,
            dst + w <= s0.len(),
            src + w <= s0.len(),
            src + w <= dst || dst + w <= src,
            rest@.len() == s0.len(),
            forall|j: int| 0 <= j < s0.len() && !(dst <= j < dst + b) ==> rest@[j] == s0[j],
            forall|j: int| 0 <= j < b ==> #[trigger] crate::bits::at(rest@, dst as int, j) == if and_not {
                crate::bits::at(s0, dst as int, j) & !crate::bits::at(s0, src as int, j)
            } else {
                crate::bits::at(s0, dst as int, j) | crate::bits::at(s0, src as int, j)
            },
        decreases w - b,
    {
        let x = rest[dst + b];
        let y = rest[src + b];
        assert(x == crate::bits::at(s0, dst as int, b as int));
        assert(y == crate::bits::at(s0, src as int, b as int));
        let ghost prev = rest@;
        if and_not {
            rest.set(dst + b, x & !y);
        } else {
            rest.set(dst + b, x | y);
        }
        proof {
            assert forall|j: int| 0 <= j < b + 1 implies #[trigger] crate::bits::at(rest@, dst as int, j) == if and_not {
                crate::bits::at(s0, dst as int, j) & !crate::bits::at(s0, src as int, j)
            } else {
                crate::bits::at(s0, dst as int, j) | crate::bits::at(s0, src as int, j)
            } by {
                if j < b {
                    assert(crate::bits::at(prev, dst as int, j) == crate::bits::at(rest@, dst as int, j));
                }
            }
        }
        b = b + 1;
    }
    proof {
        if and_not {
            crate::bits::lemma_region_and_not(rest@, dst as int, s0, dst as int, s0, src as int, w as int);
        } else {
            crate::bits::lemma_region_or(rest@, dst as int, s0, dst as int, s0, src as int, w as int);
        }
    }
}

/// Copies the run of `w` words at `src` over the run at `dst`.
fn copy_run(rest: &mut Vec<u64>, dst: usize, src: usize, w: usize)
    requires
        dst + w <= old(rest)@.len(),
        src + w <= old(rest)@.len(),
        src + w <= dst || dst + w <= src,
    ensures
        final(rest)@.len() == old(rest)@.len(),
        forall|j: int| 0 <= j < old(rest)@.len() && !(dst <= j < dst + w) ==> final(rest)@[j] == old(rest)@[j],
        crate::bits::region(final(rest)@, dst as int, w as int) == crate::bits::region(
            old(rest)@,
            src as int,
            w as int,
        ),
{
    let ghost s0 = rest@;
    let _n = rest.len();
    let mut b: usize = 0;
    while b < w
        invariant
            b <= w,
            s0.len() <= usize::MAX,
            dst + w <= s0.len(),
            src + w <= s0.len(),
            src + w <= dst || dst + w <= src,
            rest@.len() == s0.len(),
            forall|j: int| 0 <= j < s0.len() && !(dst <= j < dst + b) ==> rest@[j] == s0[j],
            forall|j: int| 0 <= j < b ==> #[trigger] crate::bits::at(rest@, dst as int, j) == crate::bits::at(s0, src as int, j),
        decreases w - b,
    {
        let y = rest[src + b];
        assert(y == crate::bits::at(s0, src as int, b as int));
        let ghost prev = rest@;
        rest.set(dst + b, y);
        proof {
            assert forall|j: int| 0 <= j < b + 1 implies #[trigger] crate::bits::at(rest@, dst as int, j) == crate::bits::at(s0, src as int, j) by {
                if j < b {
                    assert(crate::bits::at(prev, dst as int, j) == crate::bits::at(rest@, dst as int, j));
                }
            }
        }
        b = b + 1;
    }
    proof {
        let r1 = crate::bits::region(rest@, dst as int, w as int);
        let r2 = crate::bits::region(s0, src as int, w as int);
        assert forall|q: int| r1.contains(q) <==> r2.contains(q) by {
            if 0 <= q < 64 * w {
                assert(0 <= q / 64 < w);
                assert(crate::bits::at(rest@, dst as int, q / 64) == crate::bits::at(s0, src as int, q / 64));
            }
        }
        assert(r1 =~= r2);
    }
}


impl<'a> Scheduler<'a> {
    /// Removes `player` from the potential players of every table of round `ro`
    /// and of table `ta` in every round.
    fn clear_row_and_column(&self, rest: &mut Vec<u64>, ro: usize, ta: usize, player: usize)
        requires
            self.wf(),
            old(rest)@.len() >= self.spec_rest_len(),
            ro < self.spec_rounds(),
            ta < self.spec_table_count(),
            player < self.spec_player_count(),
        ensures
            final(rest)@.len() == old(rest)@.len(),
            forall|j: int|
                0 <= j < old(rest)@.len() && !(self.spec_potential_off() <= j < self.spec_rest_len())
                    ==> final(rest)@[j] == old(rest)@[j],
            ({
                let g = self.grid(old(rest)@);
                let tc = self.spec_table_count();
                forall|c: int|
                    0 <= c < g.potential_on_table.len() ==> #[trigger] self.grid(final(rest)@).potential_on_table[c]
                        == if c / tc == ro || c % tc == ta {
                        g.potential_on_table[c].remove(player as int)
                    } else {
                        g.potential_on_table[c]
                    }
            }),
    {
        proof {
            self.lemma_layout();
        }
        let ghost s0 = rest@;
        let ghost g0 = self.grid(s0);
        let ghost tci = self.spec_table_count();
        let w = self.player_bit_word_count;
        let tc = self.tables.len();
        let pot = self.offsets.potential_on_table_offset;
        let mut r2: usize = 0;
        while r2 < self.rounds
            invariant
                self.wf(),
                r2 <= self.spec_rounds(),
                w == self.spec_words(),
                tc == tci,
                tci == self.spec_table_count(),
                pot == self.spec_potential_off(),
                ro < self.spec_rounds(),
                ta < tci,
                player < self.spec_player_count(),
                rest@.len() == s0.len(),
                s0.len() >= self.spec_rest_len(),
                g0 == self.grid(s0),
                forall|j: int|
                    0 <= j < s0.len() && !(self.spec_potential_off() <= j < self.spec_rest_len())
                        ==> rest@[j] == s0[j],
                forall|c: int|
                    0 <= c < g0.potential_on_table.len() ==> #[trigger] self.grid(rest@).potential_on_table[c]
                        == if c % tci == ta && c / tci < r2 {
                        g0.potential_on_table[c].remove(player as int)
                    } else {
                        g0.potential_on_table[c]
                    },
            decreases self.spec_rounds() - r2,
        {
            proof {
                self.lemma_layout();
                lemma_pair_index(r2 as int, ta as int, self.spec_rounds(), tci);
                assert(cell(w as int, r2 as int * tci + ta) + w <= cell(w as int, self.spec_rounds() * tci));
                assert(player < 64 * w);
            }
            let c1 = r2 * tc + ta;
            let base = pot + w * c1;
            let ghost prev = rest@;
            put_player_bit(rest, base, w, player, false);
            proof {
                let k = base + player / 64;
                self.lemma_grid_frame(prev, rest@, k, k + 1);
                assert forall|c: int|
                    0 <= c < g0.potential_on_table.len() implies #[trigger] self.grid(rest@).potential_on_table[c]
                        == if c % tci == ta && c / tci < r2 + 1 {
                        g0.potential_on_table[c].remove(player as int)
                    } else {
                        g0.potential_on_table[c]
                    } by {
                    vstd::arithmetic::div_mod::lemma_fundamental_div_mod(c, tci);
                    if c == c1 {
                        assert(self.grid(rest@).potential_on_table[c] == self.grid(prev).potential_on_table[c].remove(player as int));
                    } else {
                        if c < c1 {
                            assert(cell(w as int, c) + w <= cell(w as int, c1 as int));
                        } else {
                            assert(cell(w as int, c1 as int) + w <= cell(w as int, c));
                        }
                        assert(self.grid(rest@).potential_on_table[c] == self.grid(prev).potential_on_table[c]);
                        if c % tci == ta && c / tci == r2 {
                            assert(c == c1) by (nonlinear_arith)
                                requires c == tci * (c / tci) + c % tci, c % tci == ta, c / tci == r2, c1 == r2 * tci + ta;
                        }
                    }
                }
            }
            r2 = r2 + 1;
        }
        proof {
            assert forall|c: int| 0 <= c < g0.potential_on_table.len() implies #[trigger] (c / tci) < self.spec_rounds() by {
                assert(c / tci < self.spec_rounds()) by (nonlinear_arith)
                    requires 0 <= c < self.spec_rounds() * tci, tci > 0;
            }
        }
        let mut t2: usize = 0;
        while t2 < tc
            invariant
                self.wf(),
                t2 <= tci,
                w == self.spec_words(),
                tc == tci,
                tci == self.spec_table_count(),
                pot == self.spec_potential_off(),
                ro < self.spec_rounds(),
                ta < tci,
                player < self.spec_player_count(),
                rest@.len() == s0.len(),
                s0.len() >= self.spec_rest_len(),
                g0 == self.grid(s0),
                forall|j: int|
                    0 <= j < s0.len() && !(self.spec_potential_off() <= j < self.spec_rest_len())
                        ==> rest@[j] == s0[j],
                forall|c: int|
                    0 <= c < g0.potential_on_table.len() ==> #[trigger] self.grid(rest@).potential_on_table[c]
                        == if c % tci == ta || (c / tci == ro && c % tci < t2) {
                        g0.potential_on_table[c].remove(player as int)
                    } else {
                        g0.potential_on_table[c]
                    },
            decreases tci - t2,
        {
            proof {
                self.lemma_layout();
                lemma_pair_index(ro as int, t2 as int, self.spec_rounds(), tci);
                assert(cell(w as int, ro as int * tci + t2) + w <= cell(w as int, self.spec_rounds() * tci));
                assert(player < 64 * w);
            }
            let c1 = ro * tc + t2;
            let base = pot + w * c1;
            let ghost prev = rest@;
            put_player_bit(rest, base, w, player, false);
            proof {
                let k = base + player / 64;
                self.lemma_grid_frame(prev, rest@, k, k + 1);
                assert forall|c: int|
                    0 <= c < g0.potential_on_table.len() implies #[trigger] self.grid(rest@).potential_on_table[c]
                        == if c % tci == ta || (c / tci == ro && c % tci < t2 + 1) {
                        g0.potential_on_table[c].remove(player as int)
                    } else {
                        g0.potential_on_table[c]
                    } by {
                    vstd::arithmetic::div_mod::lemma_fundamental_div_mod(c, tci);
                    if c == c1 {
                        assert(self.grid(rest@).potential_on_table[c] == self.grid(prev).potential_on_table[c].remove(player as int));
                    } else {
                        if c < c1 {
                            assert(cell(w as int, c) + w <= cell(w as int, c1 as int));
                        } else {
                            assert(cell(w as int, c1 as int) + w <= cell(w as int, c));
                        }
                        assert(self.grid(rest@).potential_on_table[c] == self.grid(prev).potential_on_table[c]);
                        if c / tci == ro && c % tci == t2 {
                            assert(c == c1) by (nonlinear_arith)
                                requires c == tci * (c / tci) + c % tci, c % tci == t2, c / tci == ro, c1 == ro * tci + t2;
                        }
                    }
                }
            }
            t2 = t2 + 1;
        }
        proof {
            assert forall|c: int|
                0 <= c < g0.potential_on_table.len() implies #[trigger] self.grid(rest@).potential_on_table[c]
                    == if c / tci == ro || c % tci == ta {
                    g0.potential_on_table[c].remove(player as int)
                } else {
                    g0.potential_on_table[c]
                } by {
                vstd::arithmetic::div_mod::lemma_fundamental_div_mod(c, tci);
                assert(0 <= c % tci < tci) by (nonlinear_arith) requires tci > 0;
            }
        }
    }
}


impl<'a> Scheduler<'a> {
    /// Adds `player` to the played-with set of every player placed on cell `c0`.
    #[verifier::rlimit(50)]
    #[verifier::spinoff_prover]
    fn mark_played_with(&self, rest: &mut Vec<u64>, c0: usize, player: usize)
        requires
            self.wf(),
            old(rest)@.len() >= self.spec_rest_len(),
            c0 < self.spec_rounds() * self.spec_table_count(),
            self.grid(old(rest)@).played_on_table[c0 as int].subset_of(self.players()),
            player < self.spec_player_count(),
        ensures
            final(rest)@.len() == old(rest)@.len(),
            forall|j: int|
                0 <= j < old(rest)@.len() && !(self.spec_with_off() <= j < self.spec_total_off())
                    ==> final(rest)@[j] == old(rest)@[j],
            ({
                let g = self.grid(old(rest)@);
                forall|p: int|
                    0 <= p < self.spec_player_count() ==> #[trigger] self.grid(final(rest)@).played_with[p]
                        == if g.played_on_table[c0 as int].contains(p) {
                        g.played_with[p].insert(player as int)
                    } else {
                        g.played_with[p]
                    }
            }),
    {
        proof {
            self.lemma_layout();
            assert(cell(self.spec_words(), c0 as int) + self.spec_words() <= cell(
                self.spec_words(),
                self.spec_rounds() * self.spec_table_count(),
            ));
        }
        let ghost s0 = rest@;
        let ghost g0 = self.grid(s0);
        let ghost f = g0.played_on_table[c0 as int];
        let ghost pc = self.spec_player_count();
        let w = self.player_bit_word_count;
        let fixed_base = self.offsets.played_on_table_offset + w * c0;
        let with_off = self.offsets.played_with_offset;
        let mut b: usize = 0;
        while b < w
            invariant
                self.wf(),
                b <= w,
                w == self.spec_words(),
                fixed_base == self.spec_fixed_off() + cell(w as int, c0 as int),
                fixed_base + w <= self.spec_potential_off(),
                with_off == self.spec_with_off(),
                pc == self.spec_player_count(),
                player < pc,
                rest@.len() == s0.len(),
                s0.len() >= self.spec_rest_len(),
                g0 == self.grid(s0),
                f == g0.played_on_table[c0 as int],
                f == crate::bits::region(s0, fixed_base as int, w as int),
                f.subset_of(self.players()),
                forall|j: int|
                    0 <= j < s0.len() && !(self.spec_with_off() <= j < self.spec_total_off()) ==> rest@[j] == s0[j],
                forall|p: int|
                    0 <= p < pc ==> #[trigger] self.grid(rest@).played_with[p] == if f.contains(p) && p < 64 * b {
                        g0.played_with[p].insert(player as int)
                    } else {
                        g0.played_with[p]
                    },
            decreases w - b,
        {
            let mut other = rest[fixed_base + b];
            proof {
                self.lemma_layout();
                assert(rest@[fixed_base + b] == s0[fixed_base + b]);
            }
            let ghost word = other;
            while other != 0
                invariant
                    self.wf(),
                    b < w,
                    w == self.spec_words(),
                    fixed_base == self.spec_fixed_off() + cell(w as int, c0 as int),
                    fixed_base + w <= self.spec_potential_off(),
                    with_off == self.spec_with_off(),
                    pc == self.spec_player_count(),
                    player < pc,
                    rest@.len() == s0.len(),
                    s0.len() >= self.spec_rest_len(),
                    g0 == self.grid(s0),
                    f == crate::bits::region(s0, fixed_base as int, w as int),
                    f.subset_of(self.players()),
                    word == s0[fixed_base + b],
                    forall|i: int| #[trigger] crate::bits::bit(other, i) ==> crate::bits::bit(word, i),
                    forall|j: int|
                        0 <= j < s0.len() && !(self.spec_with_off() <= j < self.spec_total_off()) ==> rest@[j] == s0[j],
                    forall|p: int|
                        0 <= p < pc ==> #[trigger] self.grid(rest@).played_with[p] == if f.contains(p) && (p < 64
                            * b || (p / 64 == b && !crate::bits::bit(other, p % 64))) {
                            g0.played_with[p].insert(player as int)
                        } else {
                            g0.played_with[p]
                        },
                decreases other,
            {
                proof {
                    self.lemma_layout();
                    crate::bits::lemma_trailing_zeros(other);
                }
                let tz = other.trailing_zeros();
                let q = b * 64 + tz as usize;
                proof {
                    crate::bits::lemma_region_word(s0, fixed_base as int, w as int, b as int, tz as int);
                    assert(crate::bits::bit(other, tz as int));
                    assert(crate::bits::bit(word, tz as int));
                    assert(q as int == 64 * b + tz);
                    assert(f.contains(q as int));
                    assert(q < pc);
                    assert(cell(w as int, q as int) + w <= cell(w as int, pc));
                    crate::bits::lemma_clear_bit_smaller(other, tz as u64);
                    crate::bits::lemma_bit_ops();
                }
                let ghost prev_other = other;
                other = other & !(1u64 << (tz as u64));
                let ghost prev = rest@;
                put_player_bit(rest, with_off + w * q, w, player, true);
                proof {
                    let k = with_off + w * q + player / 64;
                    self.lemma_grid_frame(prev, rest@, k, k + 1);
                    assert forall|i: int| #[trigger] crate::bits::bit(other, i) implies crate::bits::bit(word, i) by {
                        assert(crate::bits::bit(prev_other, i));
                    }
                    assert forall|p: int|
                        0 <= p < pc implies #[trigger] self.grid(rest@).played_with[p] == if f.contains(p) && (p
                            < 64 * b || (p / 64 == b && !crate::bits::bit(other, p % 64))) {
                            g0.played_with[p].insert(player as int)
                        } else {
                            g0.played_with[p]
                        } by {
                        if p == q {
                            lemma_div_mod_word(b as int, tz as int, 64);
                            assert(self.grid(rest@).played_with[p] == self.grid(prev).played_with[p].insert(player as int));
                        } else {
                            if p < q {
                                assert(cell(w as int, p) + w <= cell(w as int, q as int));
                            } else {
                                assert(cell(w as int, q as int) + w <= cell(w as int, p));
                            }
                            assert(self.grid(rest@).played_with[p] == self.grid(prev).played_with[p]);
                            if p / 64 == b {
                                assert(p % 64 != tz) by {
                                    vstd::arithmetic::div_mod::lemma_fundamental_div_mod(p, 64);
                                }
                                assert(crate::bits::bit(other, p % 64) == crate::bits::bit(prev_other, p % 64));
                            }
                        }
                    }
                }
            }
            proof {
                crate::bits::lemma_bit_ops();
                assert forall|p: int|
                    0 <= p < pc implies #[trigger] self.grid(rest@).played_with[p] == if f.contains(p) && p < 64 * (b + 1) {
                        g0.played_with[p].insert(player as int)
                    } else {
                        g0.played_with[p]
                    } by {
                    assert(!crate::bits::bit(0u64, p % 64));
                    if 64 * b <= p < 64 * (b + 1) {
                        assert(p / 64 == b);
                    } else if p < 64 * b {
                        assert(p / 64 < b);
                    } else {
                        assert(p / 64 > b);
                    }
                }
            }
            b = b + 1;
        }
        proof {
            assert forall|p: int|
                0 <= p < pc implies #[trigger] self.grid(rest@).played_with[p] == if f.contains(p) {
                    g0.played_with[p].insert(player as int)
                } else {
                    g0.played_with[p]
                } by {
                if f.contains(p) {
                    assert(p < 64 * w);
                }
            }
        }
    }
}


impl<'a> Scheduler<'a> {
    /// The offset of part `fam` of the buffer: played-with, played-on-table-total,
    /// played-in-round, played-on-table, potential-on-table.
    pub open spec fn family_off(&self, fam: int) -> int {
        if fam == 0 {
            self.spec_with_off()
        } else if fam == 1 {
            self.spec_total_off()
        } else if fam == 2 {
            self.spec_round_off()
        } else if fam == 3 {
            self.spec_fixed_off()
        } else {
            self.spec_potential_off()
        }
    }

    /// The number of sets of part `fam` of the buffer.
    pub open spec fn family_len(&self, fam: int) -> int {
        if fam == 0 {
            self.spec_player_count()
        } else if fam == 1 {
            self.spec_table_count()
        } else if fam == 2 {
            self.spec_rounds()
        } else {
            self.spec_rounds() * self.spec_table_count()
        }
    }

    /// The sets of part `fam` of the state `g`.
    pub open spec fn family(g: Grid, fam: int) -> Seq<Set<int>> {
        if fam == 0 {
            g.played_with
        } else if fam == 1 {
            g.played_on_table_total
        } else if fam == 2 {
            g.played_in_round
        } else if fam == 3 {
            g.played_on_table
        } else {
            g.potential_on_table
        }
    }

    /// Changing only words inside part `fam` leaves the other parts and the
    /// counters unchanged; changing only words inside set `i0` of that part
    /// leaves its other sets unchanged too.
    proof fn lemma_write_in(&self, s: Seq<u64>, s2: Seq<u64>, fam: int, i0: int, lo: int, hi: int)
        requires
            self.wf(),
            0 <= fam < 5,
            s.len() == s2.len(),
            s.len() >= self.spec_rest_len(),
            forall|j: int| 0 <= j < s.len() && !(lo <= j < hi) ==> s2[j] == s[j],
            self.family_off(fam) <= lo,
            hi <= self.family_off(fam) + cell(self.spec_words(), self.family_len(fam)),
            0 <= i0 < self.family_len(fam) ==> self.family_off(fam) + cell(self.spec_words(), i0) <= lo
                && hi <= self.family_off(fam) + cell(self.spec_words(), i0) + self.spec_words(),
        ensures
            self.grid(s2).placed == self.grid(s).placed,
            self.grid(s2).empty == self.grid(s).empty,
            forall|f2: int| 0 <= f2 < 5 && f2 != fam ==> #[trigger] Self::family(self.grid(s2), f2) == Self::family(self.grid(s), f2),
            Self::family(self.grid(s2), fam).len() == Self::family(self.grid(s), fam).len(),
            Self::family(self.grid(s), fam).len() == self.family_len(fam),
            0 <= i0 < self.family_len(fam) ==> forall|i: int|
                0 <= i < self.family_len(fam) && i != i0 ==> #[trigger] Self::family(self.grid(s2), fam)[i]
                    == Self::family(self.grid(s), fam)[i],
    {
        self.lemma_layout();
        self.lemma_grid_frame(s, s2, lo, hi);
        let w = self.spec_words();
        let g = self.grid(s);
        let g2 = self.grid(s2);
        assert(s2[0] == s[0]);
        assert(s2[1] == s[1]);
        if fam != 0 {
            assert(g2.played_with =~= g.played_with);
        }
        if fam != 1 {
            assert(g2.played_on_table_total =~= g.played_on_table_total);
        }
        if fam != 2 {
            assert(g2.played_in_round =~= g.played_in_round);
        }
        if fam != 3 {
            assert(g2.played_on_table =~= g.played_on_table);
        }
        if fam != 4 {
            assert(g2.potential_on_table =~= g.potential_on_table);
        }
        if 0 <= i0 < self.family_len(fam) {
            assert forall|i: int|
                0 <= i < self.family_len(fam) && i != i0 implies #[trigger] Self::family(g2, fam)[i]
                    == Self::family(g, fam)[i] by {
                if i < i0 {
                    assert(cell(w, i) + w <= cell(w, i0));
                } else {
                    assert(cell(w, i0) + w <= cell(w, i));
                }
            }
        }
    }

    /// Places `player` on `table` of `round`: updates who played with whom, who
    /// played in the round and on the table, and the potential players of the
    /// tables of the round and of the table in other rounds. Returns `None`,
    /// changing nothing, when the round, table or player is out of range.
    #[verifier::rlimit(100)]
    #[verifier::spinoff_prover]
    fn apply_player(&self, buffer: &mut Schedule, round: Round, table: Table, player: usize) -> (r: Option<()>)
        requires
            self.wf(),
            self.rest_wf(old(buffer).rest_spec()),
            old(buffer).rest_spec()[0] < u64::MAX,
        ensures
            final(buffer).to_explore_spec() == old(buffer).to_explore_spec(),
            final(buffer).rest_spec().len() == old(buffer).rest_spec().len(),
            forall|j: int|
                self.spec_rest_len() <= j < old(buffer).rest_spec().len() ==> final(buffer).rest_spec()[j]
                    == old(buffer).rest_spec()[j],
            r is Some <==> round.value() < self.spec_rounds() && table.value() < self.spec_table_count()
                && player < self.spec_player_count(),
            r is None ==> final(buffer).rest_spec() == old(buffer).rest_spec(),
            r is Some ==> self.grid(final(buffer).rest_spec()) == self.apply_spec(
                self.grid(old(buffer).rest_spec()),
                round.value() as int,
                table.value() as int,
                player as int,
            ),
            r is Some ==> self.rest_wf(final(buffer).rest_spec()),
    {
        let ro = round.as_usize();
        let ta = table.as_usize();
        if ro >= self.rounds || ta >= self.tables.len() || player >= self.player_count {
            return None;
        }
        let ghost tci = self.spec_table_count();
        let ghost rr = self.spec_rounds();
        let ghost pc = self.spec_player_count();
        proof {
            self.lemma_layout();
            lemma_pair_index(ro as int, ta as int, rr, tci);
        }
        let w = self.player_bit_word_count;
        let tc = self.tables.len();
        let c0 = ro * tc + ta;
        let ghost wi = w as int;
        let ghost s0 = buffer.rest@;
        let ghost g0 = self.grid(s0);
        let ghost f = g0.played_on_table[c0 as int];
        let ghost rl = self.spec_rest_len();
        proof {
            assert(cell(wi, ro as int) + wi <= cell(wi, rr));
            assert(cell(wi, ta as int) + wi <= cell(wi, tci));
            assert(cell(wi, c0 as int) + wi <= cell(wi, rr * tci));
            assert(cell(wi, player as int) + wi <= cell(wi, pc));
            assert(player < 64 * wi);
        }

        let counter = buffer.rest[0];
        buffer.rest.set(0, counter + 1);
        let ghost s1 = buffer.rest@;
        proof {
            self.lemma_grid_frame(s0, s1, 0, 1);
            let g1 = self.grid(s1);
            assert(g1.played_with =~= g0.played_with);
            assert(g1.played_on_table_total =~= g0.played_on_table_total);
            assert(g1.played_in_round =~= g0.played_in_round);
            assert(g1.played_on_table =~= g0.played_on_table);
            assert(g1.potential_on_table =~= g0.potential_on_table);
        }

        self.clear_row_and_column(&mut buffer.rest, ro, ta, player);
        let ghost s2 = buffer.rest@;
        proof {
            self.lemma_write_in(s1, s2, 4, -1, self.spec_potential_off(), rl);
            assert(Self::family(self.grid(s2), 0) == g0.played_with);
        }

        let round_base = self.offsets.played_in_round_offset + w * ro;
        put_player_bit(&mut buffer.rest, round_base, w, player, true);
        let ghost s3 = buffer.rest@;
        proof {
            let k = round_base + player / 64;
            self.lemma_write_in(s2, s3, 2, ro as int, k, k + 1);
        }

        let total_base = self.offsets.played_on_table_total_offset + w * ta;
        put_player_bit(&mut buffer.rest, total_base, w, player, true);
        let ghost s4 = buffer.rest@;
        proof {
            let k = total_base + player / 64;
            self.lemma_write_in(s3, s4, 1, ta as int, k, k + 1);
        }

        let potential_base = self.offsets.potential_on_table_offset + w * c0;
        let with_base = self.offsets.played_with_offset + w * player;
        let fixed_base = self.offsets.played_on_table_offset + w * c0;
        combine_runs(&mut buffer.rest, potential_base, with_base, w, true);
        let ghost s5 = buffer.rest@;
        proof {
            self.lemma_write_in(s4, s5, 4, c0 as int, potential_base as int, potential_base + wi);
        }

        combine_runs(&mut buffer.rest, with_base, fixed_base, w, false);
        let ghost s6 = buffer.rest@;
        proof {
            self.lemma_write_in(s5, s6, 0, player as int, with_base as int, with_base + wi);
            assert(Self::family(self.grid(s6), 3) == Self::family(self.grid(s5), 3));
            assert(self.grid(s6).played_on_table[c0 as int] == f);
        }

        self.mark_played_with(&mut buffer.rest, c0, player);
        let ghost s7 = buffer.rest@;
        proof {
            self.lemma_write_in(s6, s7, 0, -1, self.spec_with_off(), self.spec_total_off());
        }

        put_player_bit(&mut buffer.rest, potential_base, w, player, true);
        let ghost s8 = buffer.rest@;
        proof {
            let k = potential_base + player / 64;
            self.lemma_write_in(s7, s8, 4, c0 as int, k, k + 1);
        }

        put_player_bit(&mut buffer.rest, fixed_base, w, player, true);
        let ghost s9 = buffer.rest@;
        proof {
            let k = fixed_base + player / 64;
            self.lemma_write_in(s8, s9, 3, c0 as int, k, k + 1);
            let g2 = self.grid(s2);
            let g3 = self.grid(s3);
            let g4 = self.grid(s4);
            let g5 = self.grid(s5);
            let g6 = self.grid(s6);
            let g7 = self.grid(s7);
            let g8 = self.grid(s8);
            let g9 = self.grid(s9);
            assert(Self::family(g2, 0) == Self::family(self.grid(s1), 0));
            assert(Self::family(g2, 1) == Self::family(self.grid(s1), 1));
            assert(Self::family(g2, 2) == Self::family(self.grid(s1), 2));
            assert(Self::family(g2, 3) == Self::family(self.grid(s1), 3));
            assert(Self::family(g3, 0) == Self::family(g2, 0));
            assert(Self::family(g3, 1) == Self::family(g2, 1));
            assert(Self::family(g3, 3) == Self::family(g2, 3));
            assert(Self::family(g3, 4) == Self::family(g2, 4));
            assert(Self::family(g4, 0) == Self::family(g3, 0));
            assert(Self::family(g4, 2) == Self::family(g3, 2));
            assert(Self::family(g4, 3) == Self::family(g3, 3));
            assert(Self::family(g4, 4) == Self::family(g3, 4));
            assert(Self::family(g5, 0) == Self::family(g4, 0));
            assert(Self::family(g5, 1) == Self::family(g4, 1));
            assert(Self::family(g5, 2) == Self::family(g4, 2));
            assert(Self::family(g5, 3) == Self::family(g4, 3));
            assert(Self::family(g6, 1) == Self::family(g5, 1));
            assert(Self::family(g6, 2) == Self::family(g5, 2));
            assert(Self::family(g6, 3) == Self::family(g5, 3));
            assert(Self::family(g6, 4) == Self::family(g5, 4));
            assert(Self::family(g7, 1) == Self::family(g6, 1));
            assert(Self::family(g7, 2) == Self::family(g6, 2));
            assert(Self::family(g7, 3) == Self::family(g6, 3));
            assert(Self::family(g7, 4) == Self::family(g6, 4));
            assert(Self::family(g8, 0) == Self::family(g7, 0));
            assert(Self::family(g8, 1) == Self::family(g7, 1));
            assert(Self::family(g8, 2) == Self::family(g7, 2));
            assert(Self::family(g8, 3) == Self::family(g7, 3));
            assert(Self::family(g9, 0) == Self::family(g8, 0));
            assert(Self::family(g9, 1) == Self::family(g8, 1));
            assert(Self::family(g9, 2) == Self::family(g8, 2));
            assert(Self::family(g9, 4) == Self::family(g8, 4));
            self.lemma_apply_assembled(g0, g2, g3, g4, g5, g6, g7, g8, g9, ro as int, ta as int, player as int);
            self.lemma_apply_keeps_players(g0, ro as int, ta as int, player as int);
        }
        Some(())
    }
}


impl<'a> Scheduler<'a> {
    /// The steps of `apply_player`, each on one part of the buffer, add up to
    /// `apply_spec`.
    proof fn lemma_apply_assembled(
        &self,
        g0: Grid,
        g2: Grid,
        g3: Grid,
        g4: Grid,
        g5: Grid,
        g6: Grid,
        g7: Grid,
        g8: Grid,
        g9: Grid,
        ro: int,
        ta: int,
        player: int,
    )
        requires
            self.wf(),
            0 <= ro < self.spec_rounds(),
            0 <= ta < self.spec_table_count(),
            0 <= player < self.spec_player_count(),
            g0.played_with.len() == self.spec_player_count(),
            g0.played_on_table_total.len() == self.spec_table_count(),
            g0.played_in_round.len() == self.spec_rounds(),
            g0.played_on_table.len() == self.spec_rounds() * self.spec_table_count(),
            g0.potential_on_table.len() == self.spec_rounds() * self.spec_table_count(),
            g9.placed == g0.placed + 1,
            g9.empty == g0.empty,
            g2.played_with == g0.played_with,
            g2.played_on_table_total == g0.played_on_table_total,
            g2.played_in_round == g0.played_in_round,
            g2.played_on_table == g0.played_on_table,
            g2.potential_on_table.len() == g0.potential_on_table.len(),
            forall|c: int|
                0 <= c < g0.potential_on_table.len() ==> #[trigger] g2.potential_on_table[c] == if c
                    / self.spec_table_count() == ro || c % self.spec_table_count() == ta {
                    g0.potential_on_table[c].remove(player)
                } else {
                    g0.potential_on_table[c]
                },
            g3.played_with == g2.played_with,
            g3.played_on_table_total == g2.played_on_table_total,
            g3.played_on_table == g2.played_on_table,
            g3.potential_on_table == g2.potential_on_table,
            g3.played_in_round.len() == g2.played_in_round.len(),
            g3.played_in_round[ro] == g2.played_in_round[ro].insert(player),
            forall|i: int| 0 <= i < g2.played_in_round.len() && i != ro ==> #[trigger] g3.played_in_round[i] == g2.played_in_round[i],
            g4.played_with == g3.played_with,
            g4.played_in_round == g3.played_in_round,
            g4.played_on_table == g3.played_on_table,
            g4.potential_on_table == g3.potential_on_table,
            g4.played_on_table_total.len() == g3.played_on_table_total.len(),
            g4.played_on_table_total[ta] == g3.played_on_table_total[ta].insert(player),
            forall|i: int| 0 <= i < g3.played_on_table_total.len() && i != ta ==> #[trigger] g4.played_on_table_total[i] == g3.played_on_table_total[i],
            g5.played_with == g4.played_with,
            g5.played_on_table_total == g4.played_on_table_total,
            g5.played_in_round == g4.played_in_round,
            g5.played_on_table == g4.played_on_table,
            g5.potential_on_table.len() == g4.potential_on_table.len(),
            g5.potential_on_table[ro * self.spec_table_count() + ta] == g4.potential_on_table[ro * self.spec_table_count() + ta].difference(g4.played_with[player]),
            forall|i: int| 0 <= i < g4.potential_on_table.len() && i != ro * self.spec_table_count() + ta ==> #[trigger] g5.potential_on_table[i] == g4.potential_on_table[i],
            g6.played_on_table_total == g5.played_on_table_total,
            g6.played_in_round == g5.played_in_round,
            g6.played_on_table == g5.played_on_table,
            g6.potential_on_table == g5.potential_on_table,
            g6.played_with.len() == g5.played_with.len(),
            g6.played_with[player] == g5.played_with[player].union(g5.played_on_table[ro * self.spec_table_count() + ta]),
            forall|i: int| 0 <= i < g5.played_with.len() && i != player ==> #[trigger] g6.played_with[i] == g5.played_with[i],
            g7.played_on_table_total == g6.played_on_table_total,
            g7.played_in_round == g6.played_in_round,
            g7.played_on_table == g6.played_on_table,
            g7.potential_on_table == g6.potential_on_table,
            g7.played_with.len() == g6.played_with.len(),
            forall|i: int| 0 <= i < g6.played_with.len() ==> #[trigger] g7.played_with[i] == if g6.played_on_table[ro * self.spec_table_count() + ta].contains(i) {
                g6.played_with[i].insert(player)
            } else {
                g6.played_with[i]
            },
            g8.played_with == g7.played_with,
            g8.played_on_table_total == g7.played_on_table_total,
            g8.played_in_round == g7.played_in_round,
            g8.played_on_table == g7.played_on_table,
            g8.potential_on_table.len() == g7.potential_on_table.len(),
            g8.potential_on_table[ro * self.spec_table_count() + ta] == g7.potential_on_table[ro * self.spec_table_count() + ta].insert(player),
            forall|i: int| 0 <= i < g7.potential_on_table.len() && i != ro * self.spec_table_count() + ta ==> #[trigger] g8.potential_on_table[i] == g7.potential_on_table[i],
            g9.played_with == g8.played_with,
            g9.played_on_table_total == g8.played_on_table_total,
            g9.played_in_round == g8.played_in_round,
            g9.potential_on_table == g8.potential_on_table,
            g9.played_on_table.len() == g8.played_on_table.len(),
            g9.played_on_table[ro * self.spec_table_count() + ta] == g8.played_on_table[ro * self.spec_table_count() + ta].insert(player),
            forall|i: int| 0 <= i < g8.played_on_table.len() && i != ro * self.spec_table_count() + ta ==> #[trigger] g9.played_on_table[i] == g8.played_on_table[i],
        ensures
            g9 == self.apply_spec(g0, ro, ta, player),
    {
        let tci = self.spec_table_count();
        let c0 = ro * tci + ta;
        lemma_pair_index(ro, ta, self.spec_rounds(), tci);
        let e = self.apply_spec(g0, ro, ta, player);
        let f = g0.played_on_table[c0];
        assert forall|i: int| 0 <= i < g0.played_with.len() implies #[trigger] g9.played_with[i] == e.played_with[i] by {
            if i == player {
                if f.contains(i) {
                    assert(g0.played_with[i].union(f).insert(player) =~= g0.played_with[i].union(f));
                }
            }
        }
        assert(g9.played_with =~= e.played_with);
        assert(g9.played_on_table_total =~= e.played_on_table_total);
        assert(g9.played_in_round =~= e.played_in_round);
        assert(g9.played_on_table =~= e.played_on_table);
        assert forall|i: int| 0 <= i < g0.potential_on_table.len() implies #[trigger] g9.potential_on_table[i] == e.potential_on_table[i] by {
            if i == c0 {
                assert(i / tci == ro);
            }
        }
        assert(g9.potential_on_table =~= e.potential_on_table);
        assert(g9 =~= e);
    }
}


impl<'a> Scheduler<'a> {
    /// Placing a player keeps every placed and potential set within the players.
    proof fn lemma_apply_keeps_players(&self, g: Grid, ro: int, ta: int, player: int)
        requires
            self.wf(),
            0 <= ro < self.spec_rounds(),
            0 <= ta < self.spec_table_count(),
            0 <= player < self.spec_player_count(),
            g.played_on_table.len() == self.spec_rounds() * self.spec_table_count(),
            g.potential_on_table.len() == self.spec_rounds() * self.spec_table_count(),
            forall|c: int| 0 <= c < g.played_on_table.len() ==> #[trigger] g.played_on_table[c].subset_of(self.players()),
            forall|c: int| 0 <= c < g.potential_on_table.len() ==> #[trigger] g.potential_on_table[c].subset_of(self.players()),
        ensures
            ({
                let e = self.apply_spec(g, ro, ta, player);
                &&& e.played_on_table.len() == g.played_on_table.len()
                &&& e.potential_on_table.len() == g.potential_on_table.len()
                &&& forall|c: int| 0 <= c < e.played_on_table.len() ==> #[trigger] e.played_on_table[c].subset_of(self.players())
                &&& forall|c: int| 0 <= c < e.potential_on_table.len() ==> #[trigger] e.potential_on_table[c].subset_of(self.players())
            }),
    {
        let e = self.apply_spec(g, ro, ta, player);
        lemma_pair_index(ro, ta, self.spec_rounds(), self.spec_table_count());
        assert forall|c: int| 0 <= c < e.played_on_table.len() implies #[trigger] e.played_on_table[c].subset_of(self.players()) by {
            assert(g.played_on_table[c].subset_of(self.players()));
        }
        assert forall|c: int| 0 <= c < e.potential_on_table.len() implies #[trigger] e.potential_on_table[c].subset_of(self.players()) by {
            assert(g.potential_on_table[c].subset_of(self.players()));
        }
    }
}


/// Counts the numbers held by the run of `w` words at `base`.
fn count_run(rest: &Vec<u64>, base: usize, w: usize) -> (r: u32)
    requires
        base + w <= rest@.len(),
        64 * w <= u32::MAX,
    ensures
        r == crate::bits::region(rest@, base as int, w as int).len(),
        crate::bits::region(rest@, base as int, w as int).finite(),
        r <= 64 * w,
{
    let _n = rest.len();
    let mut total: u32 = 0;
    let mut b: usize = 0;
    while b < w
        invariant
            b <= w,
            rest@.len() <= usize::MAX,
            base + w <= rest@.len(),
            64 * w <= u32::MAX,
            total == crate::bits::bits_count(rest@, base as int, 64 * b),
            total <= 64 * b,
        decreases w - b,
    {
        let c = crate::bits::count_ones(rest[base + b]);
        proof {
            crate::bits::lemma_bits_count_word(rest@, base as int, b as int, 64);
        }
        total = total + c;
        b = b + 1;
    }
    proof {
        crate::bits::lemma_region_is_below(rest@, base as int, w as int);
    }
    total
}

/// Whether the runs of `w` words at `a` and at `b` hold no number in common.
fn runs_disjoint(rest: &Vec<u64>, a: usize, b: usize, w: usize) -> (r: bool)
    requires
        a + w <= rest@.len(),
        b + w <= rest@.len(),
    ensures
        r <==> crate::bits::region(rest@, a as int, w as int).disjoint(
            crate::bits::region(rest@, b as int, w as int),
        ),
{
    let _n = rest.len();
    let mut i: usize = 0;
    proof {
        crate::bits::lemma_bit_ops();
    }
    while i < w
        invariant
            i <= w,
            rest@.len() <= usize::MAX,
            a + w <= rest@.len(),
            b + w <= rest@.len(),
            forall|q: int|
                0 <= q < 64 * i ==> !(crate::bits::region(rest@, a as int, w as int).contains(q)
                    && crate::bits::region(rest@, b as int, w as int).contains(q)),
        decreases w - i,
    {
        let x = rest[a + i] & rest[b + i];
        if x != 0 {
            proof {
                crate::bits::lemma_trailing_zeros(x);
                let tz = x.trailing_zeros() as int;
                crate::bits::lemma_bit_ops();
                crate::bits::lemma_region_word(rest@, a as int, w as int, i as int, tz);
                crate::bits::lemma_region_word(rest@, b as int, w as int, i as int, tz);
                let q = 64 * i + tz;
                assert(crate::bits::region(rest@, a as int, w as int).contains(q));
                assert(crate::bits::region(rest@, b as int, w as int).contains(q));
            }
            return false;
        }
        proof {
            crate::bits::lemma_bit_ops();
            assert forall|q: int|
                0 <= q < 64 * (i + 1) implies !(crate::bits::region(rest@, a as int, w as int).contains(q)
                    && crate::bits::region(rest@, b as int, w as int).contains(q)) by {
                if q >= 64 * i {
                    let tz = q - 64 * i;
                    crate::bits::lemma_region_word(rest@, a as int, w as int, i as int, tz);
                    crate::bits::lemma_region_word(rest@, b as int, w as int, i as int, tz);
                    assert(!crate::bits::bit(0u64, tz));
                    assert(!crate::bits::bit(x, tz));
                }
            }
        }
        i = i + 1;
    }
    true
}

impl Schedule {
    /// Joins the to-explore words and the rest back into one buffer.
    pub fn into_buffer(self) -> (r: Vec<u64>)
        ensures
            r@ == self.to_explore_spec().data_spec() + self.rest_spec(),
    {
        let Schedule { to_explore, mut rest } = self;
        let mut data = to_explore.data;
        data.append(&mut rest);
        data
    }

    /// Splits `buffer` into a schedule for `scheduler`; `None` when the buffer is
    /// shorter than a search buffer.
    pub fn import_buffer(buffer: Vec<u64>, scheduler: &Scheduler) -> (r: Option<Self>)
        requires
            scheduler.wf(),
        ensures
            r is Some <==> buffer@.len() >= scheduler.spec_block_size(),
            r matches Some(sch) ==> {
                &&& sch.to_explore_spec().data_spec() == buffer@.subrange(0, scheduler.spec_to_explore_size())
                &&& sch.to_explore_spec().divisor_spec() == scheduler.spec_divisor()
                &&& sch.to_explore_spec().wf()
                &&& sch.rest_spec() == buffer@.subrange(scheduler.spec_to_explore_size(), buffer@.len() as int)
            },
    {
        if buffer.len() < scheduler.get_block_size() {
            None
        } else {
            proof {
                scheduler.lemma_layout();
            }
            let mut front = buffer;
            let rest = front.split_off(scheduler.offsets.to_explore_size);
            proof {
                assert(front@.len() * 64 <= usize::MAX) by {
                    assert(scheduler.spec_to_explore_size() * 64 <= scheduler.spec_rounds() * scheduler.spec_size_divisor() * 2 + 63) by (nonlinear_arith)
                        requires scheduler.spec_to_explore_size() == div_ceil(scheduler.spec_rounds() * scheduler.spec_size_divisor() * 2, 64),
                            scheduler.spec_rounds() * scheduler.spec_size_divisor() * 2 >= 0;
                    scheduler.lemma_explore_fits();
                }
            }
            let to_explore = ToExplore::new(front, scheduler.offsets.divisor);
            proof {
                scheduler.lemma_shift_is(to_explore.divisor);
            }
            Some(Schedule { to_explore, rest })
        }
    }

    /// A schedule with the same words.
    pub fn copy(&self) -> (r: Self)
        ensures
            r.to_explore_spec().data_spec() == self.to_explore_spec().data_spec(),
            r.to_explore_spec().divisor_spec() == self.to_explore_spec().divisor_spec(),
            self.to_explore_spec().wf() ==> r.to_explore_spec().wf(),
            r.rest_spec() == self.rest_spec(),
    {
        let to_explore = self.to_explore.copy();
        let rest = self.rest.clone();
        proof {
            assert(rest@ =~= self.rest@);
        }
        Schedule { to_explore, rest }
    }

    /// Takes the to-explore set out, leaving an empty one in its place.
    pub fn extract_to_explore(&mut self) -> (r: ToExplore<u64>)
        ensures
            r == old(self).to_explore_spec(),
            final(self).rest_spec() == old(self).rest_spec(),
            final(self).to_explore_spec().data_spec().len() == 0,
    {
        let mut other = ToExplore { data: Vec::new(), divisor: 0 };
        core::mem::swap(&mut other, &mut self.to_explore);
        other
    }

    /// Puts a to-explore set back.
    pub fn import_to_explore(&mut self, to_explore: ToExplore<u64>)
        ensures
            final(self).to_explore_spec() == to_explore,
            final(self).rest_spec() == old(self).rest_spec(),
    {
        self.to_explore = to_explore;
    }
}

impl<'a> Scheduler<'a> {
    /// The to-explore bit numbers of the rounds fit in the to-explore words.
    proof fn lemma_explore_fits(&self)
        requires
            self.wf(),
        ensures
            self.spec_rounds() * self.spec_size_divisor() * 2 + 63 <= usize::MAX,
            self.spec_size_divisor() <= self.spec_table_count(),
    {
        let t = self.spec_table_count();
        let d = self.spec_size_divisor();
        let r = self.spec_rounds();
        assert(d <= t) by {
            if d > 0 {
                vstd::arithmetic::power2::lemma_pow2_strictly_increases((d - 1) as nat, d as nat);
                lemma_pow2_ge_exponent((d - 1) as nat);
            }
        }
        assert(r * d * 2 <= r * t * 2) by (nonlinear_arith)
            requires d <= t, r >= 0, d >= 0;
        lemma_seq_sum_nonneg(self.spec_tables());
        let w = self.spec_words();
        let p = self.spec_player_count();
        assert(w * p >= 0 && w * t >= 0 && w * r >= 0 && w * t * r >= 0) by (nonlinear_arith)
            requires w >= 0, p >= 0, t >= 0, r >= 0;
        assert(r * t * 2 >= 0) by (nonlinear_arith) requires r >= 0, t >= 0;
        assert(2 + w * p + w * t + w * r + 2 * (w * t * r) + r * t * 2 + 64 <= usize::MAX);
    }

    /// The shift is the power of two of the size divisor.
    proof fn lemma_shift_is(&self, s: u32)
        requires
            is_divisor_for(s, self.spec_size_divisor() as usize),
        ensures
            self.spec_divisor() == s,
    {
        let c = choose|s2: u32| is_divisor_for(s2, self.offsets.divisor);
        lemma_divisor_unique(c, s, self.offsets.divisor);
    }

    /// The shift is the power of two of the size divisor, and a valid shift.
    proof fn lemma_shift(&self)
        requires
            self.wf(),
        ensures
            is_divisor_for(self.spec_divisor() as u32, self.spec_size_divisor() as usize),
            0 <= self.spec_divisor() < usize::BITS,
    {
        let s = choose|s: u32| #[trigger] is_divisor_for(s, self.spec_size_divisor() as usize) && s < usize::BITS;
        self.lemma_shift_is(s);
    }

    pub fn import_buffer(&self, buffer: Vec<u64>) -> (r: Option<Schedule>)
        requires
            self.wf(),
        ensures
            r is Some <==> buffer@.len() >= self.spec_block_size(),
            r matches Some(sch) ==> {
                &&& sch.to_explore_spec().data_spec() == buffer@.subrange(0, self.spec_to_explore_size())
                &&& sch.to_explore_spec().divisor_spec() == self.spec_divisor()
                &&& sch.to_explore_spec().wf()
                &&& sch.rest_spec() == buffer@.subrange(self.spec_to_explore_size(), buffer@.len() as int)
            },
    {
        Schedule::import_buffer(buffer, self)
    }

    /// The placed players of every table of every round.
    pub fn get_schedule<'b>(&self, buffer: &'b Schedule) -> (r: &'b [u64])
        requires
            self.wf(),
            buffer.rest_spec().len() >= self.spec_rest_len(),
        ensures
            r@ == buffer.rest_spec().subrange(
                self.spec_fixed_off(),
                self.spec_fixed_off() + cell(self.spec_words(), self.spec_rounds() * self.spec_table_count()),
            ),
    {
        proof {
            self.lemma_layout();
            assert(self.spec_words() * self.spec_table_count() * self.spec_rounds() == cell(self.spec_words(), self.spec_rounds() * self.spec_table_count())) by (nonlinear_arith);
        }
        let start = self.offsets.played_on_table_offset;
        vstd::slice::slice_subrange(buffer.rest.as_slice(), start, start + self.offsets.played_on_table_size)
    }

    /// The number of placements made so far.
    pub fn get_players_placed(&self, buffer: &Schedule) -> (r: u64)
        requires
            self.wf(),
            buffer.rest_spec().len() >= self.spec_rest_len(),
        ensures
            r == self.grid(buffer.rest_spec()).placed,
    {
        proof {
            self.lemma_layout();
        }
        buffer.rest[self.offsets.players_placed_counter_offset]
    }

    /// The number of tables left to fill.
    pub fn get_empty_table_count(&self, buffer: &Schedule) -> (r: u64)
        requires
            self.wf(),
            buffer.rest_spec().len() >= self.spec_rest_len(),
        ensures
            r == self.grid(buffer.rest_spec()).empty,
    {
        proof {
            self.lemma_layout();
        }
        buffer.rest[self.offsets.empty_table_count_offset]
    }

    /// Counting players fits a `u32`.
    pub open spec fn counts_fit(&self) -> bool {
        64 * self.spec_words() <= u32::MAX
    }

    /// The number of players placed on `table` in `round`.
    fn get_fixed_count(&self, buffer: &Schedule, round: Round, table: Table) -> (r: u32)
        requires
            self.wf(),
            self.counts_fit(),
            buffer.rest_spec().len() >= self.spec_rest_len(),
            round.value() < self.spec_rounds(),
            table.value() < self.spec_table_count(),
        ensures
            r == self.grid(buffer.rest_spec()).played_on_table[round.value() * self.spec_table_count() + table.value()].len(),
            r <= 64 * self.spec_words(),
    {
        proof {
            self.lemma_layout();
            lemma_pair_index(round.value() as int, table.value() as int, self.spec_rounds(), self.spec_table_count());
            assert(cell(self.spec_words(), round.value() * self.spec_table_count() + table.value()) + self.spec_words() <= cell(self.spec_words(), self.spec_rounds() * self.spec_table_count()));
        }
        let w = self.player_bit_word_count;
        let c = round.as_usize() * self.tables.len() + table.as_usize();
        count_run(&buffer.rest, self.offsets.played_on_table_offset + w * c, w)
    }

    /// The number of players that may be placed on `table` in `round`, those
    /// placed there included.
    fn get_potential_count(&self, buffer: &Schedule, round: Round, table: Table) -> (r: u32)
        requires
            self.wf(),
            self.counts_fit(),
            buffer.rest_spec().len() >= self.spec_rest_len(),
            round.value() < self.spec_rounds(),
            table.value() < self.spec_table_count(),
        ensures
            r == self.grid(buffer.rest_spec()).potential_on_table[round.value() * self.spec_table_count() + table.value()].len(),
            r <= 64 * self.spec_words(),
    {
        proof {
            self.lemma_layout();
            lemma_pair_index(round.value() as int, table.value() as int, self.spec_rounds(), self.spec_table_count());
            assert(cell(self.spec_words(), round.value() * self.spec_table_count() + table.value()) + self.spec_words() <= cell(self.spec_words(), self.spec_rounds() * self.spec_table_count()));
        }
        let w = self.player_bit_word_count;
        let c = round.as_usize() * self.tables.len() + table.as_usize();
        count_run(&buffer.rest, self.offsets.potential_on_table_offset + w * c, w)
    }

    /// Whether `player` has played with none of the players placed on `table`
    /// in `round`.
    fn can_place_player_on_table(&self, buffer: &Schedule, round: Round, table: Table, player: usize) -> (r: bool)
        requires
            self.wf(),
            buffer.rest_spec().len() >= self.spec_rest_len(),
            round.value() < self.spec_rounds(),
            table.value() < self.spec_table_count(),
            player < self.spec_player_count(),
        ensures
            r <==> self.grid(buffer.rest_spec()).played_with[player as int].disjoint(
                self.grid(buffer.rest_spec()).played_on_table[round.value() * self.spec_table_count() + table.value()],
            ),
    {
        proof {
            self.lemma_layout();
            lemma_pair_index(round.value() as int, table.value() as int, self.spec_rounds(), self.spec_table_count());
            assert(cell(self.spec_words(), round.value() * self.spec_table_count() + table.value()) + self.spec_words() <= cell(self.spec_words(), self.spec_rounds() * self.spec_table_count()));
            assert(cell(self.spec_words(), player as int) + self.spec_words() <= cell(self.spec_words(), self.spec_player_count()));
        }
        let w = self.player_bit_word_count;
        let c = round.as_usize() * self.tables.len() + table.as_usize();
        runs_disjoint(
            &buffer.rest,
            self.offsets.played_with_offset + w * player,
            self.offsets.played_on_table_offset + w * c,
            w,
        )
    }
}


impl<'a> Scheduler<'a> {
    /// The players that may sit anywhere in a round after the first, at the start:
    /// the players of the first word.
    pub open spec fn initial_potential(&self) -> Set<int> {
        Set::new(|p: int| 0 <= p < self.spec_player_count() && p < 64)
    }

    /// The state of a fresh buffer before the first round is seated: nothing
    /// placed, every table after the first round open to the first word of players.
    pub open spec fn initial_grid(&self) -> Grid {
        let t = self.spec_table_count();
        let cells = self.spec_rounds() * t;
        Grid {
            placed: 0,
            empty: ((self.spec_rounds() - 1) * t) as u64,
            played_with: Seq::new(self.spec_player_count() as nat, |i: int| Set::empty()),
            played_on_table_total: Seq::new(t as nat, |i: int| Set::empty()),
            played_in_round: Seq::new(self.spec_rounds() as nat, |i: int| Set::empty()),
            played_on_table: Seq::new(cells as nat, |i: int| Set::empty()),
            potential_on_table: Seq::new(
                cells as nat,
                |c: int|
                    if c >= t {
                        self.initial_potential()
                    } else {
                        Set::empty()
                    },
            ),
        }
    }

    /// The number of the first player of table `t`: the sum of the sizes of the
    /// tables before it.
    pub open spec fn table_start(&self, t: int) -> int {
        seq_sum(self.spec_tables().subrange(0, t))
    }

    /// The table at which player `p` sits in the first round.
    pub open spec fn table_of(&self, p: int) -> int {
        choose|t: int| #![trigger self.table_start(t)] 0 <= t < self.spec_table_count() && self.table_start(t) <= p < self.table_start(t + 1)
    }

    /// The state after seating players `0..k` in the first round, each at its
    /// table, in order.
    pub open spec fn seated(&self, k: nat) -> Grid
        decreases k,
    {
        if k == 0 {
            self.initial_grid()
        } else {
            self.apply_spec(self.seated((k - 1) as nat), 0, self.table_of(k - 1), k - 1)
        }
    }

    /// The to-explore numbers of rounds `1..rounds` of the tables, in the order
    /// they are set, up to round `r` and table `t` (excluded).
    pub open spec fn explored_until(&self, r: int, t: int) -> Set<int> {
        Set::new(
            |n: int|
                exists|r2: int, t2: int|
                    1 <= r2 < self.spec_rounds() && 0 <= t2 < self.spec_table_count() && (r2 < r || (r2 == r
                        && t2 < t)) && n == #[trigger] self.explore_num(r2, t2),
        )
    }

    /// The to-explore number of table `t` of round `r`.
    pub open spec fn explore_num(&self, r: int, t: int) -> int {
        r * pow2(self.spec_divisor() as nat) + t
    }

    /// The tables to explore in a fresh buffer: every table of every round but the first.
    pub open spec fn initial_explore(&self) -> Set<int> {
        self.explored_until(self.spec_rounds(), 0)
    }

    /// The to-explore words are enough for every table of every round.
    pub open spec fn explore_room(&self) -> bool {
        self.spec_rounds() <= 1 || self.spec_table_count() == 0 || (self.spec_rounds() - 1) * pow2(
            self.spec_divisor() as nat,
        ) + self.spec_table_count() <= 64 * self.spec_to_explore_size()
    }
}

proof fn lemma_seq_sum_step(s: Seq<usize>, i: int)
    requires
        0 <= i < s.len(),
    ensures
        seq_sum(s.subrange(0, i + 1)) == seq_sum(s.subrange(0, i)) + s[i],
{
    assert(s.subrange(0, i + 1).drop_last() =~= s.subrange(0, i));
}

proof fn lemma_prefix_mono(s: Seq<usize>, i: int, j: int)
    requires
        0 <= i <= j <= s.len(),
    ensures
        seq_sum(s.subrange(0, i)) <= seq_sum(s.subrange(0, j)),
    decreases j - i,
{
    if i < j {
        lemma_prefix_mono(s, i, j - 1);
        lemma_seq_sum_step(s, j - 1);
    }
}

impl<'a> Scheduler<'a> {
    /// A player between the start of table `t` and the start of the next sits at `t`.
    proof fn lemma_table_of(&self, t: int, p: int)
        requires
            0 <= t < self.spec_table_count(),
            self.table_start(t) <= p < self.table_start(t + 1),
        ensures
            self.table_of(p) == t,
    {
        let k = self.table_of(p);
        assert(0 <= k < self.spec_table_count() && self.table_start(k) <= p < self.table_start(k + 1));
        if k < t {
            lemma_prefix_mono(self.spec_tables(), k + 1, t);
        } else if k > t {
            lemma_prefix_mono(self.spec_tables(), t + 1, k);
        }
    }

    /// Seating players keeps the placed and potential sets within the players,
    /// and counts the placements.
    proof fn lemma_seated(&self, k: nat)
        requires
            self.wf(),
            self.spec_rounds() >= 1,
            k <= self.spec_player_count(),
        ensures
            self.seated(k).placed == k,
            self.seated(k).played_on_table.len() == self.spec_rounds() * self.spec_table_count(),
            self.seated(k).potential_on_table.len() == self.spec_rounds() * self.spec_table_count(),
            self.seated(k).played_with.len() == self.spec_player_count(),
            self.seated(k).played_in_round.len() == self.spec_rounds(),
            self.seated(k).played_on_table_total.len() == self.spec_table_count(),
            forall|c: int| 0 <= c < self.seated(k).played_on_table.len() ==> #[trigger] self.seated(k).played_on_table[c].subset_of(self.players()),
            forall|c: int| 0 <= c < self.seated(k).potential_on_table.len() ==> #[trigger] self.seated(k).potential_on_table[c].subset_of(self.players()),
        decreases k,
    {
        self.lemma_layout();
        if k > 0 {
            self.lemma_seated((k - 1) as nat);
            let t = self.table_of(k - 1);
            assert(exists|t2: int| #![trigger self.table_start(t2)] 0 <= t2 < self.spec_table_count() && self.table_start(t2) <= k - 1 < self.table_start(t2 + 1)) by {
                self.lemma_some_table(k - 1);
            }
            self.lemma_apply_keeps_players(self.seated((k - 1) as nat), 0, t, k - 1);
            assert(self.seated((k - 1) as nat).placed < u64::MAX);
        }
    }

    /// Every player sits at some table of the first round.
    proof fn lemma_some_table(&self, p: int)
        requires
            self.wf(),
            0 <= p < self.spec_player_count(),
        ensures
            exists|t: int| #![trigger self.table_start(t)] 0 <= t < self.spec_table_count() && self.table_start(t) <= p < self.table_start(t + 1),
    {
        let tables = self.spec_tables();
        assert(tables.subrange(0, tables.len() as int) =~= tables);
        assert(tables.subrange(0, 0) =~= Seq::<usize>::empty());
        self.lemma_some_table_below(p, tables.len() as int);
    }

    proof fn lemma_some_table_below(&self, p: int, n: int)
        requires
            0 <= n <= self.spec_table_count(),
            0 <= p < self.table_start(n),
            self.table_start(0) == 0,
        ensures
            exists|t: int| #![trigger self.table_start(t)] 0 <= t < n && self.table_start(t) <= p < self.table_start(t + 1),
        decreases n,
    {
        if n == 0 {
        } else {
            lemma_seq_sum_step(self.spec_tables(), n - 1);
            if p < self.table_start(n - 1) {
                self.lemma_some_table_below(p, n - 1);
            } else {
                assert(self.table_start(n - 1) <= p < self.table_start(n));
            }
        }
    }
}


impl<'a> Scheduler<'a> {
    /// Fills a zeroed rest of a buffer with the fresh state: every table after
    /// the first round open to the first word of players, and the count of
    /// tables to fill.
    fn setup_fresh(&self, rest: &mut Vec<u64>)
        requires
            self.wf(),
            self.spec_rounds() >= 1,
            old(rest)@.len() >= self.spec_rest_len(),
            forall|j: int| 0 <= j < old(rest)@.len() ==> old(rest)@[j] == 0,
        ensures
            final(rest)@.len() == old(rest)@.len(),
            forall|j: int| self.spec_rest_len() <= j < old(rest)@.len() ==> final(rest)@[j] == 0,
            self.grid(final(rest)@) == self.initial_grid(),
    {
        proof {
            self.lemma_layout();
        }
        let ghost s0 = rest@;
        let w = self.player_bit_word_count;
        let tc = self.tables.len();
        let pcount = self.player_count;
        let (mb, mm) = Self::get_byte_and_mask(pcount);
        proof {
            assert(w * tc <= w * (self.rounds * tc)) by (nonlinear_arith)
                requires self.rounds >= 1, w >= 0, tc >= 0;
            assert(self.offsets.played_on_table_size == cell(w as int, self.spec_rounds() * self.spec_table_count())) by (nonlinear_arith)
                requires self.offsets.played_on_table_size == w * tc * self.rounds, tc == self.spec_table_count(), self.rounds == self.spec_rounds();
            assert(mm >= 1) by {
                let sh = (pcount % 64) as u64;
                assert((1u64 << sh) >= 1) by (bit_vector)
                    requires sh < 64;
            }
            assert((self.rounds - 1) * tc <= self.rounds * tc) by (nonlinear_arith)
                requires self.rounds >= 1, tc >= 0;
        }
        let start = self.offsets.potential_on_table_offset + w * tc;
        let end = self.offsets.potential_on_table_offset + self.offsets.played_on_table_size;
        let _n = rest.len();
        let mut i: usize = 0;
        while start + i < end
            invariant
                self.wf(),
                start == self.spec_potential_off() + w * tc,
                end == self.spec_rest_len(),
                end == self.spec_potential_off() + cell(w as int, self.spec_rounds() * tc),
                start + i <= end,
                w == self.spec_words(),
                tc == self.spec_table_count(),
                mm >= 1,
                rest@.len() == s0.len(),
                s0.len() >= self.spec_rest_len(),
                forall|j: int| 0 <= j < s0.len() && !(start <= j < start + i) ==> rest@[j] == s0[j],
                forall|k: int| 0 <= k < i ==> #[trigger] rest@[start + k] == if k % (w as int) > 0 {
                    0u64
                } else if k % (w as int) == mb {
                    (mm - 1) as u64
                } else {
                    u64::MAX
                },
            decreases end - start - i,
        {
            proof {
                assert(w > 0) by (nonlinear_arith)
                    requires start + i < end, start == self.spec_potential_off() + w * tc, end == self.spec_potential_off() + cell(w as int, self.spec_rounds() * tc), w >= 0;
            }
            let current_byte = i % w;
            let v = if current_byte > 0 {
                0
            } else if current_byte == mb {
                mm - 1
            } else {
                u64::MAX
            };
            rest.set(start + i, v);
            i = i + 1;
        }
        rest.set(self.offsets.empty_table_count_offset, ((self.rounds - 1) * tc) as u64);
        proof {
            self.lemma_fresh_grid(s0, rest@, start as int, mb as int, mm);
        }
    }

    /// The words written by `setup_fresh` hold the fresh state.
    proof fn lemma_fresh_grid(&self, s0: Seq<u64>, s: Seq<u64>, start: int, mb: int, mm: u64)
        requires
            self.wf(),
            self.spec_rounds() >= 1,
            s0.len() >= self.spec_rest_len(),
            s.len() == s0.len(),
            forall|j: int| 0 <= j < s0.len() ==> s0[j] == 0,
            start == self.spec_potential_off() + self.spec_words() * self.spec_table_count(),
            mb == self.spec_player_count() / 64,
            mm == 1u64 << ((self.spec_player_count() % 64) as u64),
            mm >= 1,
            s[1] == ((self.spec_rounds() - 1) * self.spec_table_count()) as u64,
            forall|j: int| 0 <= j < s0.len() && j != 1 && !(start <= j < self.spec_rest_len()) ==> s[j] == s0[j],
            forall|k: int| 0 <= k < self.spec_rest_len() - start ==> #[trigger] s[start + k] == if k % self.spec_words() > 0 {
                0u64
            } else if k % self.spec_words() == mb {
                (mm - 1) as u64
            } else {
                u64::MAX
            },
        ensures
            forall|j: int| self.spec_rest_len() <= j < s.len() ==> s[j] == 0,
            self.grid(s) == self.initial_grid(),
    {
        self.lemma_layout();
        crate::bits::lemma_bit_ops();
        let w = self.spec_words();
        let tc = self.spec_table_count();
        let rr = self.spec_rounds();
        let pc = self.spec_player_count();
        let g = self.grid(s);
        let e = self.initial_grid();
        assert(w * tc <= w * (rr * tc)) by (nonlinear_arith) requires rr >= 1, w >= 0, tc >= 0;
        assert(start <= self.spec_rest_len());
        assert forall|base: int| 2 <= base && base + w <= self.spec_potential_off() + cell(w, tc) implies #[trigger] crate::bits::region(s, base, w) == Set::<int>::empty() by {
            assert forall|q: int| !crate::bits::region(s, base, w).contains(q) by {
                if 0 <= q < 64 * w {
                    assert(0 <= q / 64 < w);
                    assert(base + q / 64 < start);
                    assert(s[base + q / 64] == 0);
                }
            }
            assert(crate::bits::region(s, base, w) =~= Set::<int>::empty());
        }
        assert(cell(w, tc) == w * tc);
        assert(g.played_with =~= e.played_with);
        assert(g.played_on_table_total =~= e.played_on_table_total);
        assert(g.played_in_round =~= e.played_in_round);
        assert(g.played_on_table =~= e.played_on_table);
        assert forall|c: int| 0 <= c < rr * tc implies #[trigger] g.potential_on_table[c] == e.potential_on_table[c] by {
            let base = self.spec_potential_off() + cell(w, c);
            if c < tc {
                assert(cell(w, c) + w <= cell(w, tc));
            } else {
                let rg = crate::bits::region(s, base, w);
                assert(cell(w, c) == w * (c - tc) + w * tc) by (nonlinear_arith);
                assert forall|q: int| rg.contains(q) <==> self.initial_potential().contains(q) by {
                    if 0 <= q < 64 * w {
                        let b = q / 64;
                        assert(0 <= b < w);
                        let k = w * (c - tc) + b;
                        assert(base + b == start + k);
                        lemma_div_mod_word(c - tc, b, w);
                        assert(k % w == b) by (nonlinear_arith)
                            requires k == w * (c - tc) + b, (((c - tc) * w + b) % w) == b;
                        assert(k < self.spec_rest_len() - start);
                        if b > 0 {
                            assert(!crate::bits::bit(s[base + b], q % 64));
                            assert(q >= 64);
                        } else if b == mb {
                            assert(pc < 64);
                            crate::bits::lemma_low_mask((pc % 64) as u64);
                            assert(s[base + b] == ((1u64 << ((pc % 64) as u64)) - 1u64) as u64);
                        } else {
                            assert(pc >= 64);
                        }
                    } else if 0 <= q {
                        assert(q >= 64 * w);
                        assert(q >= pc);
                    }
                }
                assert(rg =~= self.initial_potential());
            }
        }
        assert(g.potential_on_table =~= e.potential_on_table);
        assert(g =~= e);
    }
}


impl<'a> Scheduler<'a> {
    /// Marks every table of every round but the first as to explore.
    fn mark_explore_all(&self, te: &mut ToExplore<u64>)
        requires
            self.wf(),
            self.explore_room(),
            old(te).wf(),
            old(te).divisor_spec() == self.spec_divisor(),
            old(te).data_spec().len() == self.spec_to_explore_size(),
            old(te).numbers() == Set::<int>::empty(),
        ensures
            final(te).wf(),
            final(te).divisor_spec() == old(te).divisor_spec(),
            final(te).data_spec().len() == old(te).data_spec().len(),
            final(te).numbers() == self.initial_explore(),
    {
        proof {
            self.lemma_layout();
            assert(self.explored_until(1, 0) =~= Set::<int>::empty());
        }
        let ghost d = self.spec_divisor();
        let ghost tci = self.spec_table_count();
        let ghost rr = self.spec_rounds();
        let mut r: usize = 1;
        while r < self.rounds
            invariant
                self.wf(),
                self.explore_room(),
                1 <= r,
                r <= rr || rr == 0,
                rr == self.spec_rounds(),
                tci == self.spec_table_count(),
                d == self.spec_divisor(),
                te.wf(),
                te.divisor_spec() == d,
                te.data_spec().len() == self.spec_to_explore_size(),
                te.numbers() == self.explored_until(r as int, 0),
            decreases rr - r,
        {
            let mut t: usize = 0;
            while t < self.tables.len()
                invariant
                    self.wf(),
                    self.explore_room(),
                    1 <= r < rr,
                    t <= tci,
                    rr == self.spec_rounds(),
                    tci == self.spec_table_count(),
                    d == self.spec_divisor(),
                    te.wf(),
                    te.divisor_spec() == d,
                    te.data_spec().len() == self.spec_to_explore_size(),
                    te.numbers() == self.explored_until(r as int, t as int),
                decreases tci - t,
            {
                proof {
                    let p2 = pow2(d as nat);
                    vstd::arithmetic::power2::lemma_pow2_pos(d as nat);
                    assert(r * p2 <= (rr - 1) * p2) by (nonlinear_arith)
                        requires r <= rr - 1, p2 > 0;
                    assert(te.data_spec().len() * 64 <= usize::MAX);
                    assert(r * p2 <= usize::MAX);
                    vstd::bits::lemma_usize_shl_is_mul(r, d as usize);
                    assert(explore_number(r, t, d as u32) == r * p2 + t);
                }
                te.set(r, t, true);
                proof {
                    let old_set = self.explored_until(r as int, t as int);
                    let new_set = self.explored_until(r as int, t + 1);
                    let n = self.explore_num(r as int, t as int);
                    assert forall|m: int| new_set.contains(m) <==> old_set.insert(n).contains(m) by {
                        if new_set.contains(m) {
                            let (r2, t2) = choose|r2: int, t2: int|
                                1 <= r2 < rr && 0 <= t2 < tci && (r2 < r || (r2 == r && t2 < t + 1)) && m == #[trigger] self.explore_num(r2, t2);
                            if !(r2 == r && t2 == t) {
                                assert(old_set.contains(m));
                            }
                        }
                        if old_set.contains(m) {
                            let (r2, t2) = choose|r2: int, t2: int|
                                1 <= r2 < rr && 0 <= t2 < tci && (r2 < r || (r2 == r && t2 < t)) && m == #[trigger] self.explore_num(r2, t2);
                            assert(new_set.contains(m));
                        }
                        if m == n {
                            assert(new_set.contains(m));
                        }
                    }
                    assert(new_set =~= old_set.insert(n));
                }
                t = t + 1;
            }
            proof {
                let a = self.explored_until(r as int, tci);
                let b = self.explored_until(r + 1, 0);
                assert forall|m: int| a.contains(m) <==> b.contains(m) by {
                    if a.contains(m) {
                        let (r2, t2) = choose|r2: int, t2: int|
                            1 <= r2 < rr && 0 <= t2 < tci && (r2 < r || (r2 == r && t2 < tci)) && m == #[trigger] self.explore_num(r2, t2);
                        assert(b.contains(m));
                    }
                    if b.contains(m) {
                        let (r2, t2) = choose|r2: int, t2: int|
                            1 <= r2 < rr && 0 <= t2 < tci && (r2 < r + 1 || (r2 == r + 1 && t2 < 0)) && m == #[trigger] self.explore_num(r2, t2);
                        assert(a.contains(m));
                    }
                }
                assert(a =~= b);
            }
            r = r + 1;
        }
        proof {
            if rr == 0 {
                assert(self.explored_until(r as int, 0) =~= self.explored_until(rr, 0));
            }
        }
    }

    /// Seats the players in the first round, table by table, in order.
    fn seat_first_round(&self, sch: &mut Schedule)
        requires
            self.wf(),
            self.spec_rounds() >= 1,
            self.rest_wf(old(sch).rest_spec()),
            self.grid(old(sch).rest_spec()) == self.initial_grid(),
        ensures
            final(sch).to_explore_spec() == old(sch).to_explore_spec(),
            final(sch).rest_spec().len() == old(sch).rest_spec().len(),
            forall|j: int|
                self.spec_rest_len() <= j < old(sch).rest_spec().len() ==> final(sch).rest_spec()[j]
                    == old(sch).rest_spec()[j],
            self.grid(final(sch).rest_spec()) == self.seated(self.spec_player_count() as nat),
            self.rest_wf(final(sch).rest_spec()),
    {
        proof {
            self.lemma_layout();
            assert(self.spec_tables().subrange(0, 0) =~= Seq::<usize>::empty());
        }
        let ghost s0 = sch.rest@;
        let ghost te0 = sch.to_explore;
        let ghost pc = self.spec_player_count();
        let ghost tci = self.spec_table_count();
        let zero = self.round_range.convert_usize(0);
        let zero = match zero {
            Some(z) => z,
            None => return,
        };
        let mut pos: usize = 0;
        let mut t: usize = 0;
        while t < self.tables.len()
            invariant
                self.wf(),
                self.spec_rounds() >= 1,
                zero.value() == 0,
                t <= tci,
                tci == self.spec_table_count(),
                pc == self.spec_player_count(),
                pos == self.table_start(t as int),
                pos <= pc,
                sch.to_explore == te0,
                sch.rest@.len() == s0.len(),
                forall|j: int| self.spec_rest_len() <= j < s0.len() ==> sch.rest@[j] == s0[j],
                self.rest_wf(sch.rest@),
                self.grid(sch.rest@) == self.seated(pos as nat),
            decreases tci - t,
        {
            proof {
                lemma_seq_sum_step(self.spec_tables(), t as int);
                lemma_prefix_mono(self.spec_tables(), t + 1, tci);
                assert(self.spec_tables().subrange(0, tci) =~= self.spec_tables());
            }
            let table = self.table_range.convert_usize(t);
            let table = match table {
                Some(x) => x,
                None => return,
            };
            let size = self.tables[t];
            let mut player = pos;
            while player < pos + size
                invariant
                    self.wf(),
                    self.spec_rounds() >= 1,
                    zero.value() == 0,
                    table.value() == t,
                    t < tci,
                    tci == self.spec_table_count(),
                    pc == self.spec_player_count(),
                    pos == self.table_start(t as int),
                    pos + size == self.table_start(t + 1),
                    pos + size <= pc,
                    pos <= player <= pos + size,
                    sch.to_explore == te0,
                    sch.rest@.len() == s0.len(),
                    forall|j: int| self.spec_rest_len() <= j < s0.len() ==> sch.rest@[j] == s0[j],
                    self.rest_wf(sch.rest@),
                    self.grid(sch.rest@) == self.seated(player as nat),
                decreases pos + size - player,
            {
                proof {
                    self.lemma_seated(player as nat);
                    self.lemma_table_of(t as int, player as int);
                    assert(sch.rest@[0] == self.grid(sch.rest@).placed);
                }
                self.apply_player(sch, zero, table, player);
                player = player + 1;
            }
            pos = pos + size;
            t = t + 1;
        }
        proof {
            assert(self.spec_tables().subrange(0, tci) =~= self.spec_tables());
        }
    }

    /// Clears `buffer` and, when it is long enough for a search buffer, sets it
    /// to the start of a search: the first round seated table by table in player
    /// order, every later table open and to explore.
    #[must_use]
    pub fn initialise_buffer(&self, buffer: &mut [u64]) -> (r: bool)
        requires
            self.wf(),
            old(buffer)@.len() >= self.spec_block_size() ==> self.spec_rounds() >= 1 && self.explore_room(),
        ensures
            final(buffer)@.len() == old(buffer)@.len(),
            r == (old(buffer)@.len() >= self.spec_block_size()),
            !r ==> forall|j: int| 0 <= j < final(buffer)@.len() ==> final(buffer)@[j] == 0,
            r ==> {
                &&& self.explore_of(final(buffer)@) == self.initial_explore()
                &&& self.state_of(final(buffer)@) == self.seated(self.spec_player_count() as nat)
                &&& self.valid_buffer(final(buffer)@)
                &&& forall|j: int| self.spec_block_size() <= j < final(buffer)@.len() ==> final(buffer)@[j] == 0
            },
    {
        let mut i: usize = 0;
        while i < buffer.len()
            invariant
                i <= buffer@.len(),
                buffer@.len() == old(buffer)@.len(),
                forall|j: int| 0 <= j < i ==> buffer@[j] == 0,
            decreases buffer@.len() - i,
        {
            buffer[i] = 0;
            i = i + 1;
        }
        if buffer.len() < self.get_block_size() {
            return false;
        }
        proof {
            self.lemma_layout();
        }
        let v = prefix_to_vec(buffer, self.offsets.block_size);
        let ghost zeroed = v@;
        let mut sch = match self.import_buffer(v) {
            Some(sch) => sch,
            None => return false,
        };
        proof {
            crate::bits::lemma_bit_ops();
            let d = sch.to_explore.data@;
            assert forall|n: int| !ToExplore::<u64>::numbers_of(d).contains(n) by {
                if 0 <= n < d.len() * 64 {
                    assert(0 <= n / 64 < d.len());
                    assert(d[n / 64] == 0);
                }
            }
            assert(ToExplore::<u64>::numbers_of(d) =~= Set::<int>::empty());
        }
        self.setup_fresh(&mut sch.rest);
        proof {
            let g = self.grid(sch.rest@);
            assert forall|c: int| 0 <= c < g.played_on_table.len() implies #[trigger] g.played_on_table[c].subset_of(self.players()) by {}
            assert forall|c: int| 0 <= c < g.potential_on_table.len() implies #[trigger] g.potential_on_table[c].subset_of(self.players()) by {}
        }
        self.mark_explore_all(&mut sch.to_explore);
        self.seat_first_round(&mut sch);
        let ghost te_final = sch.to_explore.data@;
        let ghost rest_final = sch.rest@;
        let out = sch.into_buffer();
        write_prefix(buffer, &out);
        proof {
            let te = self.spec_to_explore_size();
            let bsi = self.spec_block_size();
            assert(out@.len() == bsi);
            assert(buffer@.subrange(0, te) =~= out@.subrange(0, te));
            assert(out@.subrange(0, te) =~= te_final);
            assert(buffer@.subrange(te, bsi) =~= out@.subrange(te, bsi));
            assert(out@.subrange(te, bsi) =~= rest_final);
            self.lemma_seated_empty(self.spec_player_count() as nat);
            self.lemma_initial_explore_len();
        }
        true
    }

    /// Seating players leaves the count of tables to fill as it was.
    proof fn lemma_seated_empty(&self, k: nat)
        ensures
            self.seated(k).empty == self.initial_grid().empty,
        decreases k,
    {
        if k > 0 {
            self.lemma_seated_empty((k - 1) as nat);
        }
    }

    /// A fresh buffer has at most as many tables to explore as tables to fill.
    proof fn lemma_initial_explore_len(&self)
        requires
            self.wf(),
            self.spec_rounds() >= 1,
        ensures
            self.initial_explore().finite(),
            self.initial_explore().len() <= (self.spec_rounds() - 1) * self.spec_table_count(),
            (self.spec_rounds() - 1) * self.spec_table_count() == self.initial_grid().empty,
    {
        let t = self.spec_table_count();
        let r = self.spec_rounds();
        let m = (r - 1) * t;
        assert(m >= 0) by (nonlinear_arith) requires r >= 1, t >= 0, m == (r - 1) * t;
        self.lemma_explore_fits();
        assert(m <= r * t) by (nonlinear_arith) requires r >= 1, t >= 0, m == (r - 1) * t;
        let x = vstd::set_lib::set_int_range(0, m);
        let f = |k: int| self.explore_num(1 + k / t, k % t);
        vstd::set_lib::lemma_int_range(0, m);
        let e = self.initial_explore();
        assert forall|n: int| #[trigger] x.map(f).contains(n) <==> e.contains(n) by {
            if x.map(f).contains(n) {
                let k = choose|k: int| x.contains(k) && n == f(k);
                assert(0 <= k < m);
                assert(t > 0) by (nonlinear_arith) requires 0 <= k < m, m == (r - 1) * t, t >= 0;
                assert(0 <= k / t < r - 1) by (nonlinear_arith) requires 0 <= k < (r - 1) * t, t > 0;
                assert(0 <= k % t < t) by (nonlinear_arith) requires t > 0;
                let r2 = 1 + k / t;
                let t2 = k % t;
                assert(n == self.explore_num(r2, t2));
            }
            if e.contains(n) {
                let (r2, t2) = choose|r2: int, t2: int|
                    1 <= r2 < r && 0 <= t2 < t && (r2 < r || (r2 == r && t2 < 0)) && n == #[trigger] self.explore_num(r2, t2);
                let k = (r2 - 1) * t + t2;
                assert(0 <= k < m) by (nonlinear_arith) requires 1 <= r2 < r, 0 <= t2 < t, k == (r2 - 1) * t + t2, m == (r - 1) * t;
                lemma_div_mod_word(r2 - 1, t2, t);
                assert(f(k) == n);
                assert(x.contains(k));
            }
        }
        assert(x.map(f) =~= e);
        vstd::set_lib::lemma_map_size_bound(x, e, f);
    }
}


/// Whether `g2` extends `g`: the same count of tables left to fill, at least as
/// many placements, and every placed, played-with, played-in-round and
/// played-on-table set kept.
pub open spec fn grows(g: Grid, g2: Grid) -> bool {
    &&& g2.empty == g.empty
    &&& g2.placed >= g.placed
    &&& g2.played_with.len() == g.played_with.len()
    &&& g2.played_on_table_total.len() == g.played_on_table_total.len()
    &&& g2.played_in_round.len() == g.played_in_round.len()
    &&& g2.played_on_table.len() == g.played_on_table.len()
    &&& g2.potential_on_table.len() == g.potential_on_table.len()
    &&& forall|i: int| 0 <= i < g.played_with.len() ==> #[trigger] g.played_with[i].subset_of(g2.played_with[i])
    &&& forall|i: int|
        0 <= i < g.played_on_table_total.len() ==> #[trigger] g.played_on_table_total[i].subset_of(
            g2.played_on_table_total[i],
        )
    &&& forall|i: int| 0 <= i < g.played_in_round.len() ==> #[trigger] g.played_in_round[i].subset_of(g2.played_in_round[i])
    &&& forall|i: int| 0 <= i < g.played_on_table.len() ==> #[trigger] g.played_on_table[i].subset_of(g2.played_on_table[i])
}

proof fn lemma_subset_trans(a: Set<int>, b: Set<int>, c: Set<int>)
    requires
        a.subset_of(b),
        b.subset_of(c),
    ensures
        a.subset_of(c),
{
    assert forall|x: int| a.contains(x) implies c.contains(x) by {
        assert(b.contains(x));
    }
}

/// Extending is transitive.
proof fn lemma_grows_trans(g1: Grid, g2: Grid, g3: Grid)
    requires
        grows(g1, g2),
        grows(g2, g3),
    ensures
        grows(g1, g3),
{
    assert forall|i: int| 0 <= i < g1.played_with.len() implies #[trigger] g1.played_with[i].subset_of(g3.played_with[i]) by {
        lemma_subset_trans(g1.played_with[i], g2.played_with[i], g3.played_with[i]);
    }
    assert forall|i: int| 0 <= i < g1.played_on_table_total.len() implies #[trigger] g1.played_on_table_total[i].subset_of(g3.played_on_table_total[i]) by {
        lemma_subset_trans(g1.played_on_table_total[i], g2.played_on_table_total[i], g3.played_on_table_total[i]);
    }
    assert forall|i: int| 0 <= i < g1.played_in_round.len() implies #[trigger] g1.played_in_round[i].subset_of(g3.played_in_round[i]) by {
        lemma_subset_trans(g1.played_in_round[i], g2.played_in_round[i], g3.played_in_round[i]);
    }
    assert forall|i: int| 0 <= i < g1.played_on_table.len() implies #[trigger] g1.played_on_table[i].subset_of(g3.played_on_table[i]) by {
        lemma_subset_trans(g1.played_on_table[i], g2.played_on_table[i], g3.played_on_table[i]);
    }
}

impl<'a> Scheduler<'a> {
    /// Placing a player extends the state.
    proof fn lemma_grows_apply(&self, g: Grid, ro: int, ta: int, player: int)
        requires
            self.wf(),
            0 <= ro < self.spec_rounds(),
            0 <= ta < self.spec_table_count(),
            0 <= player < self.spec_player_count(),
            g.placed < u64::MAX,
            g.played_with.len() == self.spec_player_count(),
            g.played_on_table_total.len() == self.spec_table_count(),
            g.played_in_round.len() == self.spec_rounds(),
            g.played_on_table.len() == self.spec_rounds() * self.spec_table_count(),
            g.potential_on_table.len() == self.spec_rounds() * self.spec_table_count(),
        ensures
            grows(g, self.apply_spec(g, ro, ta, player)),
            self.apply_spec(g, ro, ta, player).placed == g.placed + 1,
    {
        lemma_pair_index(ro, ta, self.spec_rounds(), self.spec_table_count());
    }

    /// The grid of a buffer has one set per player, table, round and cell.
    proof fn lemma_grid_lens(&self, s: Seq<u64>)
        requires
            self.wf(),
        ensures
            self.grid(s).played_with.len() == self.spec_player_count(),
            self.grid(s).played_on_table_total.len() == self.spec_table_count(),
            self.grid(s).played_in_round.len() == self.spec_rounds(),
            self.grid(s).played_on_table.len() == self.spec_rounds() * self.spec_table_count(),
            self.grid(s).potential_on_table.len() == self.spec_rounds() * self.spec_table_count(),
    {
        self.lemma_layout();
    }

    /// The number of placements that one pass of `find_hidden_singles` may make.
    pub open spec fn singles_budget(&self) -> int {
        64 * self.spec_words() * (self.spec_rounds() + self.spec_table_count())
    }

    /// The tables of round `r` that may still take player `p` in the state `g`.
    pub open spec fn round_tables(&self, g: Grid, r: int, p: int) -> Set<int> {
        Set::new(
            |t: int|
                0 <= t < self.spec_table_count() && g.potential_on_table[r * self.spec_table_count()
                    + t].contains(p),
        )
    }

    /// The rounds in which table `t` may still take player `p` in the state `g`.
    pub open spec fn table_rounds(&self, g: Grid, t: int, p: int) -> Set<int> {
        Set::new(
            |r: int|
                0 <= r < self.spec_rounds() && g.potential_on_table[r * self.spec_table_count()
                    + t].contains(p),
        )
    }

    /// Looks at player `p` in round `r`: a player that has not played in the
    /// round yet and that exactly one table of the round may take is seated
    /// there; otherwise nothing changes.
    pub open spec fn round_single(&self, g: Grid, r: int, p: int) -> Grid {
        if 0 <= p < self.spec_player_count() && !g.played_in_round[r].contains(p) && exists|t: int|
            self.round_tables(g, r, p) == set![t] {
            self.apply_spec(g, r, choose|t: int| self.round_tables(g, r, p) == set![t], p)
        } else {
            g
        }
    }

    /// Looks at player `p` at table `t`: a player that has not played at the
    /// table yet and that the table may take in exactly one round is seated
    /// there in that round; otherwise nothing changes.
    pub open spec fn table_single(&self, g: Grid, t: int, p: int) -> Grid {
        if 0 <= p < self.spec_player_count() && !g.played_on_table_total[t].contains(p) && exists|r: int|
            self.table_rounds(g, t, p) == set![r] {
            self.apply_spec(g, choose|r: int| self.table_rounds(g, t, p) == set![r], t, p)
        } else {
            g
        }
    }

    /// The state after the first `n` looks of a pass over the rounds in order,
    /// each over the players in order: look `k` is at player `k % players` in
    /// round `k / players`.
    pub open spec fn rounds_pass(&self, g: Grid, n: nat) -> Grid
        decreases n,
    {
        if n == 0 {
            g
        } else {
            let k = n - 1;
            let pc = self.spec_player_count();
            self.round_single(self.rounds_pass(g, (n - 1) as nat), k / pc, k % pc)
        }
    }

    /// The state after the first `n` looks of a pass over the tables in order,
    /// each over the players in order: look `k` is at player `k % players` at
    /// table `k / players`.
    pub open spec fn tables_pass(&self, g: Grid, n: nat) -> Grid
        decreases n,
    {
        if n == 0 {
            g
        } else {
            let k = n - 1;
            let pc = self.spec_player_count();
            self.table_single(self.tables_pass(g, (n - 1) as nat), k / pc, k % pc)
        }
    }

    /// The number of looks of a pass made before the one at player `p` of
    /// round or table `i`; numbers from the player count on add none.
    pub open spec fn pass_index(&self, i: int, p: int) -> nat {
        (i * self.spec_player_count() + if p < self.spec_player_count() {
            p
        } else {
            self.spec_player_count()
        }) as nat
    }

    /// Looks that change nothing leave the round pass where it was.
    proof fn lemma_rounds_skip(&self, g0: Grid, r: int, a: int, b: int)
        requires
            self.wf(),
            0 <= r,
            0 <= a <= b,
            forall|p: int|
                a <= p < b ==> #[trigger] self.round_single(self.rounds_pass(g0, self.pass_index(r, a)), r, p)
                    == self.rounds_pass(g0, self.pass_index(r, a)),
        ensures
            self.rounds_pass(g0, self.pass_index(r, b)) == self.rounds_pass(g0, self.pass_index(r, a)),
        decreases b - a,
    {
        let pc = self.spec_player_count();
        self.lemma_layout();
        assert(r * pc >= 0) by (nonlinear_arith)
            requires r >= 0, pc >= 0;
        if a < b {
            self.lemma_rounds_skip(g0, r, a, b - 1);
            if b - 1 < pc {
                lemma_div_mod_word(r, b - 1, pc);
                assert(self.pass_index(r, b) == self.pass_index(r, b - 1) + 1);
            } else {
                assert(self.pass_index(r, b) == self.pass_index(r, b - 1));
            }
        }
    }

    /// Looks that change nothing leave the table pass where it was.
    proof fn lemma_tables_skip(&self, g0: Grid, t: int, a: int, b: int)
        requires
            self.wf(),
            0 <= t,
            0 <= a <= b,
            forall|p: int|
                a <= p < b ==> #[trigger] self.table_single(self.tables_pass(g0, self.pass_index(t, a)), t, p)
                    == self.tables_pass(g0, self.pass_index(t, a)),
        ensures
            self.tables_pass(g0, self.pass_index(t, b)) == self.tables_pass(g0, self.pass_index(t, a)),
        decreases b - a,
    {
        let pc = self.spec_player_count();
        self.lemma_layout();
        assert(t * pc >= 0) by (nonlinear_arith)
            requires t >= 0, pc >= 0;
        if a < b {
            self.lemma_tables_skip(g0, t, a, b - 1);
            if b - 1 < pc {
                lemma_div_mod_word(t, b - 1, pc);
                assert(self.pass_index(t, b) == self.pass_index(t, b - 1) + 1);
            } else {
                assert(self.pass_index(t, b) == self.pass_index(t, b - 1));
            }
        }
    }

    /// For a single bit, the tables of a round that meet it are those that may
    /// take its player.
    proof fn lemma_round_tables_meeting(&self, s: Seq<u64>, r: int, byte: int, i: int)
        requires
            self.wf(),
            0 <= r < self.spec_rounds(),
            0 <= byte < self.spec_words(),
            0 <= i < 64,
        ensures
            self.round_tables(self.grid(s), r, 64 * byte + i) == self.tables_meeting(s, r, byte, 1u64 << (i as u64)),
    {
        self.lemma_layout();
        crate::bits::lemma_bit_ops();
        let m = 1u64 << (i as u64);
        let tc = self.spec_table_count();
        let w = self.spec_words();
        assert forall|t: int| 0 <= t < tc implies #[trigger] self.grid(s).potential_on_table[r * tc + t].contains(64 * byte + i)
            == (self.potential_word(s, r * tc + t, byte) & m != 0) by {
            lemma_pair_index(r, t, self.spec_rounds(), tc);
            let base = self.spec_potential_off() + cell(w, r * tc + t);
            crate::bits::lemma_region_word(s, base, w, byte, i);
            let x = s[base + byte];
            crate::bits::lemma_zero_iff_no_bits(x & m);
            if crate::bits::bit(x, i) {
                assert(crate::bits::bit(x & m, i));
            }
        }
        assert(self.round_tables(self.grid(s), r, 64 * byte + i) =~= self.tables_meeting(s, r, byte, m));
    }

    /// For a single bit, the rounds in which a table meets it are those in
    /// which the table may take its player.
    proof fn lemma_table_rounds_meeting(&self, s: Seq<u64>, t: int, byte: int, i: int)
        requires
            self.wf(),
            0 <= t < self.spec_table_count(),
            0 <= byte < self.spec_words(),
            0 <= i < 64,
        ensures
            self.table_rounds(self.grid(s), t, 64 * byte + i) == self.rounds_meeting(s, t, byte, 1u64 << (i as u64)),
    {
        self.lemma_layout();
        crate::bits::lemma_bit_ops();
        let m = 1u64 << (i as u64);
        let tc = self.spec_table_count();
        let w = self.spec_words();
        assert forall|r: int| 0 <= r < self.spec_rounds() implies #[trigger] self.grid(s).potential_on_table[r * tc + t].contains(64 * byte + i)
            == (self.potential_word(s, r * tc + t, byte) & m != 0) by {
            lemma_pair_index(r, t, self.spec_rounds(), tc);
            let base = self.spec_potential_off() + cell(w, r * tc + t);
            crate::bits::lemma_region_word(s, base, w, byte, i);
            let x = s[base + byte];
            crate::bits::lemma_zero_iff_no_bits(x & m);
            if crate::bits::bit(x, i) {
                assert(crate::bits::bit(x & m, i));
            }
        }
        assert(self.table_rounds(self.grid(s), t, 64 * byte + i) =~= self.rounds_meeting(s, t, byte, m));
    }

    /// Word `byte` of the potential players of cell `c` in the buffer words `s`.
    pub open spec fn potential_word(&self, s: Seq<u64>, c: int, byte: int) -> u64 {
        s[self.spec_potential_off() + cell(self.spec_words(), c) + byte]
    }

    /// The tables of round `r` whose word `byte` of potential players shares a
    /// bit with `mask`.
    pub open spec fn tables_meeting(&self, s: Seq<u64>, r: int, byte: int, mask: u64) -> Set<int> {
        Set::new(
            |t: int|
                0 <= t < self.spec_table_count() && self.potential_word(s, r * self.spec_table_count() + t, byte)
                    & mask != 0,
        )
    }

    /// The rounds in which word `byte` of the potential players of table `t`
    /// shares a bit with `mask`.
    pub open spec fn rounds_meeting(&self, s: Seq<u64>, t: int, byte: int, mask: u64) -> Set<int> {
        Set::new(
            |r: int|
                0 <= r < self.spec_rounds() && self.potential_word(s, r * self.spec_table_count() + t, byte)
                    & mask != 0,
        )
    }

    /// The only table of round `r` whose potential players include the player
    /// of bit `bit` of word `byte`, if there is exactly one; `Err` when there are several.
    fn only_table(&self, rest: &Vec<u64>, r: usize, byte: usize, bit: u64) -> (res: Result<Option<usize>, ()>)
        requires
            self.wf(),
            rest@.len() >= self.spec_rest_len(),
            r < self.spec_rounds(),
            byte < self.spec_words(),
        ensures
            res matches Ok(Some(t)) ==> t < self.spec_table_count() && self.tables_meeting(rest@, r as int, byte as int, bit) == set![t as int],
            res matches Ok(None) ==> self.tables_meeting(rest@, r as int, byte as int, bit) == Set::<int>::empty(),
            res is Err ==> exists|a: int, b: int|
                a != b && self.tables_meeting(rest@, r as int, byte as int, bit).contains(a)
                    && self.tables_meeting(rest@, r as int, byte as int, bit).contains(b),
    {
        proof {
            self.lemma_layout();
        }
        let w = self.player_bit_word_count;
        let tc = self.tables.len();
        let mut only: Option<usize> = None;
        let mut t: usize = 0;
        while t < tc
            invariant
                self.wf(),
                rest@.len() >= self.spec_rest_len(),
                r < self.spec_rounds(),
                byte < w,
                w == self.spec_words(),
                tc == self.spec_table_count(),
                t <= tc,
                only matches Some(x) ==> x < t && self.tables_meeting(rest@, r as int, byte as int, bit).contains(x as int),
                forall|y: int| 0 <= y < t && self.tables_meeting(rest@, r as int, byte as int, bit).contains(y)
                    ==> only == Some(y as usize),
            decreases tc - t,
        {
            proof {
                self.lemma_layout();
                lemma_pair_index(r as int, t as int, self.spec_rounds(), tc as int);
                assert(cell(w as int, r * tc + t) + w <= cell(w as int, self.spec_rounds() * tc));
            }
            let k = self.offsets.potential_on_table_offset + w * (r * tc + t) + byte;
            if rest[k] & bit != 0 {
                if only.is_none() {
                    only = Some(t);
                } else {
                    proof {
                        let x = only->Some_0;
                        assert(self.tables_meeting(rest@, r as int, byte as int, bit).contains(t as int));
                        assert(self.tables_meeting(rest@, r as int, byte as int, bit).contains(x as int));
                    }
                    return Err(());
                }
            }
            t = t + 1;
        }
        Ok(only)
    }

    /// The only round in which the potential players of table `t` include the
    /// player of bit `bit` of word `byte`, if there is exactly one; `Err` when
    /// there are several.
    fn only_round(&self, rest: &Vec<u64>, t: usize, byte: usize, bit: u64) -> (res: Result<Option<usize>, ()>)
        requires
            self.wf(),
            rest@.len() >= self.spec_rest_len(),
            t < self.spec_table_count(),
            byte < self.spec_words(),
        ensures
            res matches Ok(Some(r)) ==> r < self.spec_rounds() && self.rounds_meeting(rest@, t as int, byte as int, bit) == set![r as int],
            res matches Ok(None) ==> self.rounds_meeting(rest@, t as int, byte as int, bit) == Set::<int>::empty(),
            res is Err ==> exists|a: int, b: int|
                a != b && self.rounds_meeting(rest@, t as int, byte as int, bit).contains(a)
                    && self.rounds_meeting(rest@, t as int, byte as int, bit).contains(b),
    {
        proof {
            self.lemma_layout();
        }
        let w = self.player_bit_word_count;
        let tc = self.tables.len();
        let mut only: Option<usize> = None;
        let mut r: usize = 0;
        while r < self.rounds
            invariant
                self.wf(),
                rest@.len() >= self.spec_rest_len(),
                t < tc,
                byte < w,
                w == self.spec_words(),
                tc == self.spec_table_count(),
                r <= self.spec_rounds(),
                only matches Some(x) ==> x < r && self.rounds_meeting(rest@, t as int, byte as int, bit).contains(x as int),
                forall|y: int| 0 <= y < r && self.rounds_meeting(rest@, t as int, byte as int, bit).contains(y)
                    ==> only == Some(y as usize),
            decreases self.spec_rounds() - r,
        {
            proof {
                self.lemma_layout();
                lemma_pair_index(r as int, t as int, self.spec_rounds(), tc as int);
                assert(cell(w as int, r * tc + t) + w <= cell(w as int, self.spec_rounds() * tc));
            }
            let k = self.offsets.potential_on_table_offset + w * (r * tc + t) + byte;
            if rest[k] & bit != 0 {
                if only.is_none() {
                    only = Some(r);
                } else {
                    proof {
                        let x = only->Some_0;
                        assert(self.rounds_meeting(rest@, t as int, byte as int, bit).contains(r as int));
                        assert(self.rounds_meeting(rest@, t as int, byte as int, bit).contains(x as int));
                    }
                    return Err(());
                }
            }
            r = r + 1;
        }
        Ok(only)
    }
}


impl<'a> Scheduler<'a> {
    /// Seats every player that can sit at only one table of a round it has not
    /// played in yet: the rounds in order, in each the players in order.
    #[verifier::rlimit(50)]
    #[verifier::spinoff_prover]
    fn singles_in_rounds(&self, buffer: &mut Schedule)
        requires
            self.wf(),
            self.rest_wf(old(buffer).rest_spec()),
            old(buffer).rest_spec()[0] + 64 * self.spec_words() * self.spec_rounds() <= u64::MAX,
        ensures
            final(buffer).to_explore_spec() == old(buffer).to_explore_spec(),
            final(buffer).rest_spec().len() == old(buffer).rest_spec().len(),
            forall|j: int|
                self.spec_rest_len() <= j < old(buffer).rest_spec().len() ==> final(buffer).rest_spec()[j]
                    == old(buffer).rest_spec()[j],
            self.rest_wf(final(buffer).rest_spec()),
            grows(self.grid(old(buffer).rest_spec()), self.grid(final(buffer).rest_spec())),
            self.grid(final(buffer).rest_spec()).placed <= self.grid(old(buffer).rest_spec()).placed + 64
                * self.spec_words() * self.spec_rounds(),
            self.grid(final(buffer).rest_spec()) == self.rounds_pass(
                self.grid(old(buffer).rest_spec()),
                (self.spec_rounds() * self.spec_player_count()) as nat,
            ),
    {
        proof {
            self.lemma_layout();
            self.lemma_grid_lens(buffer.rest@);
        }
        let ghost s0 = buffer.rest@;
        let ghost g0 = self.grid(s0);
        let ghost te0 = buffer.to_explore;
        let ghost wi = self.spec_words();
        let ghost lim = self.spec_rounds();
        let ghost pc = self.spec_player_count();
        let w = self.player_bit_word_count;
        let mut r: usize = 0;
        while r < self.rounds
            invariant
                self.wf(),
                w == wi,
                wi == self.spec_words(),
                lim == self.spec_rounds(),
                pc == self.spec_player_count(),
                r <= lim,
                g0 == self.grid(s0),
                s0[0] + 64 * wi * lim <= u64::MAX,
                buffer.to_explore == te0,
                buffer.rest@.len() == s0.len(),
                forall|j: int| self.spec_rest_len() <= j < s0.len() ==> buffer.rest@[j] == s0[j],
                self.rest_wf(buffer.rest@),
                grows(g0, self.grid(buffer.rest@)),
                self.grid(buffer.rest@).placed <= g0.placed + 64 * wi * r,
                self.grid(buffer.rest@) == self.rounds_pass(g0, (r * pc) as nat),
            decreases lim - r,
        {
            let round = match self.round_range.convert_usize(r) {
                Some(x) => x,
                None => return,
            };
            proof {
                assert(r * pc >= 0) by (nonlinear_arith)
                    requires pc >= 0;
                assert(self.pass_index(r as int, 0) == r * pc);
            }
            let mut byte: usize = 0;
            while byte < w
                invariant
                    self.wf(),
                    w == wi,
                    wi == self.spec_words(),
                    lim == self.spec_rounds(),
                    pc == self.spec_player_count(),
                    r < lim,
                    round.value() == r,
                    byte <= w,
                    g0 == self.grid(s0),
                    s0[0] + 64 * wi * lim <= u64::MAX,
                    buffer.to_explore == te0,
                    buffer.rest@.len() == s0.len(),
                    forall|j: int| self.spec_rest_len() <= j < s0.len() ==> buffer.rest@[j] == s0[j],
                    self.rest_wf(buffer.rest@),
                    grows(g0, self.grid(buffer.rest@)),
                    self.grid(buffer.rest@).placed <= g0.placed + 64 * wi * r + 64 * byte,
                    self.grid(buffer.rest@) == self.rounds_pass(g0, self.pass_index(r as int, 64 * byte)),
                decreases w - byte,
            {
                proof {
                    self.lemma_layout();
                    assert(cell(w as int, r as int) + w <= cell(w as int, self.spec_rounds()));
                }
                let mut potential = !buffer.rest[self.offsets.played_in_round_offset + w * r + byte];
                let ghost mut pos: int = 0;
                proof {
                    crate::bits::lemma_pop_le(potential, 64);
                    crate::bits::lemma_bit_ops();
                    let gc = self.grid(buffer.rest@);
                    assert forall|i: int| 0 <= i < 64 implies (crate::bits::bit(potential, i)
                        <==> !gc.played_in_round[r as int].contains(64 * byte + i)) by {
                        crate::bits::lemma_region_word(
                            buffer.rest@,
                            self.spec_round_off() + cell(w as int, r as int),
                            w as int,
                            byte as int,
                            i,
                        );
                    }
                    if potential == 0 {
                        crate::bits::lemma_zero_iff_no_bits(potential);
                        assert forall|p: int| 64 * byte <= p < 64 * byte + 64 implies #[trigger] self.round_single(
                            self.rounds_pass(g0, self.pass_index(r as int, 64 * byte)),
                            r as int,
                            p,
                        ) == self.rounds_pass(g0, self.pass_index(r as int, 64 * byte)) by {
                            assert(!crate::bits::bit(potential, p - 64 * byte));
                        }
                        self.lemma_rounds_skip(g0, r as int, 64 * byte, 64 * byte + 64);
                    }
                }
                while potential != 0
                    invariant_except_break
                        0 <= pos <= 64,
                        forall|i: int| 0 <= i < pos ==> !crate::bits::bit(potential, i),
                        forall|i: int|
                            pos <= i < 64 ==> (crate::bits::bit(potential, i)
                                <==> !self.grid(buffer.rest@).played_in_round[r as int].contains(64 * byte + i)),
                        self.grid(buffer.rest@) == self.rounds_pass(g0, self.pass_index(r as int, 64 * byte + pos)),
                        potential == 0 ==> self.grid(buffer.rest@) == self.rounds_pass(
                            g0,
                            self.pass_index(r as int, 64 * byte + 64),
                        ),
                    invariant
                        self.wf(),
                        w == wi,
                        wi == self.spec_words(),
                        lim == self.spec_rounds(),
                        pc == self.spec_player_count(),
                        r < lim,
                        round.value() == r,
                        byte < w,
                        g0 == self.grid(s0),
                        s0[0] + 64 * wi * lim <= u64::MAX,
                        buffer.to_explore == te0,
                        buffer.rest@.len() == s0.len(),
                        forall|j: int| self.spec_rest_len() <= j < s0.len() ==> buffer.rest@[j] == s0[j],
                        self.rest_wf(buffer.rest@),
                        grows(g0, self.grid(buffer.rest@)),
                        self.grid(buffer.rest@).placed + crate::bits::pop(potential, 64) <= g0.placed + 64 * wi
                            * r + 64 * byte + 64,
                    ensures
                        self.grid(buffer.rest@) == self.rounds_pass(g0, self.pass_index(r as int, 64 * byte + 64)),
                    decreases potential,
                {
                    proof {
                        self.lemma_layout();
                        crate::bits::lemma_trailing_zeros(potential);
                        crate::bits::lemma_bit_ops();
                        assert(64 * wi * r + 64 * byte + 64 <= 64 * wi * lim) by (nonlinear_arith)
                            requires r < lim, byte < wi, wi >= 0;
                    }
                    let tz = potential.trailing_zeros();
                    let player = byte * 64 + tz as usize;
                    let bit = 1u64 << (tz as u64);
                    let ghost gs = self.grid(buffer.rest@);
                    proof {
                        assert forall|p: int| 64 * byte + pos <= p < 64 * byte + tz implies #[trigger] self.round_single(
                            self.rounds_pass(g0, self.pass_index(r as int, 64 * byte + pos)),
                            r as int,
                            p,
                        ) == self.rounds_pass(g0, self.pass_index(r as int, 64 * byte + pos)) by {
                            assert(!crate::bits::bit(potential, p - 64 * byte));
                        }
                        self.lemma_rounds_skip(g0, r as int, 64 * byte + pos, 64 * byte + tz);
                        crate::bits::lemma_pop_clear(potential, tz as u64);
                        crate::bits::lemma_clear_bit_smaller(potential, tz as u64);
                    }
                    let ghost before = potential;
                    potential = potential & !bit;
                    proof {
                        assert forall|i: int| 0 <= i < 64 implies crate::bits::bit(potential, i) == (crate::bits::bit(
                            before,
                            i,
                        ) && i != tz) by {}
                    }
                    if player >= self.player_count {
                        proof {
                            assert(self.pass_index(r as int, 64 * byte + tz) == self.pass_index(
                                r as int,
                                64 * byte + 64,
                            ));
                        }
                        break;
                    }
                    proof {
                        self.lemma_round_tables_meeting(buffer.rest@, r as int, byte as int, tz as int);
                        assert(!gs.played_in_round[r as int].contains(player as int));
                        lemma_div_mod_word(r as int, player as int, pc);
                        assert(self.pass_index(r as int, 64 * byte + tz + 1) == self.pass_index(
                            r as int,
                            64 * byte + tz,
                        ) + 1);
                    }
                    match self.only_table(&buffer.rest, r, byte, bit) {
                        Ok(Some(t)) => {
                            let table = match self.table_range.convert_usize(t) {
                                Some(x) => x,
                                None => return,
                            };
                            proof {
                                lemma_grid_step(self, buffer.rest@, r as int, t as int, player as int);
                                let ch = choose|x: int| self.round_tables(gs, r as int, player as int) == set![x];
                                assert(self.round_tables(gs, r as int, player as int) == set![t as int]);
                                assert(set![ch].contains(t as int));
                            }
                            let ghost before = self.grid(buffer.rest@);
                            assert(buffer.rest@[0] == self.grid(buffer.rest@).placed);
                            assert(g0.placed == s0[0]);
                            self.apply_player(buffer, round, table, player);
                            proof {
                                self.lemma_grows_apply(before, r as int, t as int, player as int);
                                lemma_grows_trans(g0, before, self.grid(buffer.rest@));
                                assert(self.grid(buffer.rest@).played_in_round[r as int] == gs.played_in_round[r as int].insert(
                                    player as int,
                                ));
                            }
                        },
                        Ok(None) => {
                            proof {
                                assert forall|x: int| self.round_tables(gs, r as int, player as int) != set![x] by {
                                    assert(set![x].contains(x));
                                }
                            }
                        },
                        Err(()) => {
                            proof {
                                let (a, b) = choose|a: int, b: int|
                                    a != b && self.round_tables(gs, r as int, player as int).contains(a)
                                        && self.round_tables(gs, r as int, player as int).contains(b);
                                assert forall|x: int| self.round_tables(gs, r as int, player as int) != set![x] by {
                                    if self.round_tables(gs, r as int, player as int) == set![x] {
                                        assert(a == x && b == x);
                                    }
                                }
                            }
                        },
                    }
                    proof {
                        pos = tz + 1;
                        if potential == 0 {
                            crate::bits::lemma_zero_iff_no_bits(potential);
                            assert forall|p: int| 64 * byte + pos <= p < 64 * byte + 64 implies #[trigger] self.round_single(
                                self.rounds_pass(g0, self.pass_index(r as int, 64 * byte + pos)),
                                r as int,
                                p,
                            ) == self.rounds_pass(g0, self.pass_index(r as int, 64 * byte + pos)) by {
                                assert(!crate::bits::bit(potential, p - 64 * byte));
                                assert(!crate::bits::bit(before, p - 64 * byte));
                            }
                            self.lemma_rounds_skip(g0, r as int, 64 * byte + pos, 64 * byte + 64);
                        }
                    }
                }
                byte = byte + 1;
            }
            proof {
                assert(64 * wi * r + 64 * wi == 64 * wi * (r + 1)) by (nonlinear_arith);
                assert(64 * wi >= pc);
                assert(r * pc + pc == (r + 1) * pc) by (nonlinear_arith);
                assert(self.pass_index(r as int, 64 * w) == (r + 1) * pc);
            }
            r = r + 1;
        }
    }
}

impl<'a> Scheduler<'a> {
    /// Seats every player that can sit at a table in only one round, at a table
    /// it has not played at yet: the tables in order, at each the players in order.
    #[verifier::rlimit(50)]
    #[verifier::spinoff_prover]
    fn singles_in_tables(&self, buffer: &mut Schedule)
        requires
            self.wf(),
            self.rest_wf(old(buffer).rest_spec()),
            old(buffer).rest_spec()[0] + 64 * self.spec_words() * self.spec_table_count() <= u64::MAX,
        ensures
            final(buffer).to_explore_spec() == old(buffer).to_explore_spec(),
            final(buffer).rest_spec().len() == old(buffer).rest_spec().len(),
            forall|j: int|
                self.spec_rest_len() <= j < old(buffer).rest_spec().len() ==> final(buffer).rest_spec()[j]
                    == old(buffer).rest_spec()[j],
            self.rest_wf(final(buffer).rest_spec()),
            grows(self.grid(old(buffer).rest_spec()), self.grid(final(buffer).rest_spec())),
            self.grid(final(buffer).rest_spec()).placed <= self.grid(old(buffer).rest_spec()).placed + 64
                * self.spec_words() * self.spec_table_count(),
            self.grid(final(buffer).rest_spec()) == self.tables_pass(
                self.grid(old(buffer).rest_spec()),
                (self.spec_table_count() * self.spec_player_count()) as nat,
            ),
    {
        proof {
            self.lemma_layout();
            self.lemma_grid_lens(buffer.rest@);
        }
        let ghost s0 = buffer.rest@;
        let ghost g0 = self.grid(s0);
        let ghost te0 = buffer.to_explore;
        let ghost wi = self.spec_words();
        let ghost lim = self.spec_table_count();
        let ghost pc = self.spec_player_count();
        let w = self.player_bit_word_count;
        let mut t: usize = 0;
        while t < self.tables.len()
            invariant
                self.wf(),
                w == wi,
                wi == self.spec_words(),
                lim == self.spec_table_count(),
                pc == self.spec_player_count(),
                t <= lim,
                g0 == self.grid(s0),
                s0[0] + 64 * wi * lim <= u64::MAX,
                buffer.to_explore == te0,
                buffer.rest@.len() == s0.len(),
                forall|j: int| self.spec_rest_len() <= j < s0.len() ==> buffer.rest@[j] == s0[j],
                self.rest_wf(buffer.rest@),
                grows(g0, self.grid(buffer.rest@)),
                self.grid(buffer.rest@).placed <= g0.placed + 64 * wi * t,
                self.grid(buffer.rest@) == self.tables_pass(g0, (t * pc) as nat),
            decreases lim - t,
        {
            let table = match self.table_range.convert_usize(t) {
                Some(x) => x,
                None => return,
            };
            proof {
                assert(t * pc >= 0) by (nonlinear_arith)
                    requires pc >= 0;
                assert(self.pass_index(t as int, 0) == t * pc);
            }
            let mut byte: usize = 0;
            while byte < w
                invariant
                    self.wf(),
                    w == wi,
                    wi == self.spec_words(),
                    lim == self.spec_table_count(),
                    pc == self.spec_player_count(),
                    t < lim,
                    table.value() == t,
                    byte <= w,
                    g0 == self.grid(s0),
                    s0[0] + 64 * wi * lim <= u64::MAX,
                    buffer.to_explore == te0,
                    buffer.rest@.len() == s0.len(),
                    forall|j: int| self.spec_rest_len() <= j < s0.len() ==> buffer.rest@[j] == s0[j],
                    self.rest_wf(buffer.rest@),
                    grows(g0, self.grid(buffer.rest@)),
                    self.grid(buffer.rest@).placed <= g0.placed + 64 * wi * t + 64 * byte,
                    self.grid(buffer.rest@) == self.tables_pass(g0, self.pass_index(t as int, 64 * byte)),
                decreases w - byte,
            {
                proof {
                    self.lemma_layout();
                    assert(cell(w as int, t as int) + w <= cell(w as int, self.spec_table_count()));
                }
                let mut potential = !buffer.rest[self.offsets.played_on_table_total_offset + w * t + byte];
                let ghost mut pos: int = 0;
                proof {
                    crate::bits::lemma_pop_le(potential, 64);
                    crate::bits::lemma_bit_ops();
                    let gc = self.grid(buffer.rest@);
                    assert forall|i: int| 0 <= i < 64 implies (crate::bits::bit(potential, i)
                        <==> !gc.played_on_table_total[t as int].contains(64 * byte + i)) by {
                        crate::bits::lemma_region_word(
                            buffer.rest@,
                            self.spec_total_off() + cell(w as int, t as int),
                            w as int,
                            byte as int,
                            i,
                        );
                    }
                    if potential == 0 {
                        crate::bits::lemma_zero_iff_no_bits(potential);
                        assert forall|p: int| 64 * byte <= p < 64 * byte + 64 implies #[trigger] self.table_single(
                            self.tables_pass(g0, self.pass_index(t as int, 64 * byte)),
                            t as int,
                            p,
                        ) == self.tables_pass(g0, self.pass_index(t as int, 64 * byte)) by {
                            assert(!crate::bits::bit(potential, p - 64 * byte));
                        }
                        self.lemma_tables_skip(g0, t as int, 64 * byte, 64 * byte + 64);
                    }
                }
                while potential != 0
                    invariant_except_break
                        0 <= pos <= 64,
                        forall|i: int| 0 <= i < pos ==> !crate::bits::bit(potential, i),
                        forall|i: int|
                            pos <= i < 64 ==> (crate::bits::bit(potential, i)
                                <==> !self.grid(buffer.rest@).played_on_table_total[t as int].contains(64 * byte + i)),
                        self.grid(buffer.rest@) == self.tables_pass(g0, self.pass_index(t as int, 64 * byte + pos)),
                        potential == 0 ==> self.grid(buffer.rest@) == self.tables_pass(
                            g0,
                            self.pass_index(t as int, 64 * byte + 64),
                        ),
                    invariant
                        self.wf(),
                        w == wi,
                        wi == self.spec_words(),
                        lim == self.spec_table_count(),
                        pc == self.spec_player_count(),
                        t < lim,
                        table.value() == t,
                        byte < w,
                        g0 == self.grid(s0),
                        s0[0] + 64 * wi * lim <= u64::MAX,
                        buffer.to_explore == te0,
                        buffer.rest@.len() == s0.len(),
                        forall|j: int| self.spec_rest_len() <= j < s0.len() ==> buffer.rest@[j] == s0[j],
                        self.rest_wf(buffer.rest@),
                        grows(g0, self.grid(buffer.rest@)),
                        self.grid(buffer.rest@).placed + crate::bits::pop(potential, 64) <= g0.placed + 64 * wi
                            * t + 64 * byte + 64,
                    ensures
                        self.grid(buffer.rest@) == self.tables_pass(g0, self.pass_index(t as int, 64 * byte + 64)),
                    decreases potential,
                {
                    proof {
                        self.lemma_layout();
                        crate::bits::lemma_trailing_zeros(potential);
                        crate::bits::lemma_bit_ops();
                        assert(64 * wi * t + 64 * byte + 64 <= 64 * wi * lim) by (nonlinear_arith)
                            requires t < lim, byte < wi, wi >= 0;
                    }
                    let tz = potential.trailing_zeros();
                    let player = byte * 64 + tz as usize;
                    let bit = 1u64 << (tz as u64);
                    let ghost gs = self.grid(buffer.rest@);
                    proof {
                        assert forall|p: int| 64 * byte + pos <= p < 64 * byte + tz implies #[trigger] self.table_single(
                            self.tables_pass(g0, self.pass_index(t as int, 64 * byte + pos)),
                            t as int,
                            p,
                        ) == self.tables_pass(g0, self.pass_index(t as int, 64 * byte + pos)) by {
                            assert(!crate::bits::bit(potential, p - 64 * byte));
                        }
                        self.lemma_tables_skip(g0, t as int, 64 * byte + pos, 64 * byte + tz);
                        crate::bits::lemma_pop_clear(potential, tz as u64);
                        crate::bits::lemma_clear_bit_smaller(potential, tz as u64);
                    }
                    let ghost before = potential;
                    potential = potential & !bit;
                    proof {
                        assert forall|i: int| 0 <= i < 64 implies crate::bits::bit(potential, i) == (crate::bits::bit(
                            before,
                            i,
                        ) && i != tz) by {}
                    }
                    if player >= self.player_count {
                        proof {
                            assert(self.pass_index(t as int, 64 * byte + tz) == self.pass_index(
                                t as int,
                                64 * byte + 64,
                            ));
                        }
                        break;
                    }
                    proof {
                        self.lemma_table_rounds_meeting(buffer.rest@, t as int, byte as int, tz as int);
                        assert(!gs.played_on_table_total[t as int].contains(player as int));
                        lemma_div_mod_word(t as int, player as int, pc);
                        assert(self.pass_index(t as int, 64 * byte + tz + 1) == self.pass_index(
                            t as int,
                            64 * byte + tz,
                        ) + 1);
                    }
                    match self.only_round(&buffer.rest, t, byte, bit) {
                        Ok(Some(r)) => {
                            let round = match self.round_range.convert_usize(r) {
                                Some(x) => x,
                                None => return,
                            };
                            proof {
                                lemma_grid_step(self, buffer.rest@, r as int, t as int, player as int);
                                let ch = choose|x: int| self.table_rounds(gs, t as int, player as int) == set![x];
                                assert(self.table_rounds(gs, t as int, player as int) == set![r as int]);
                                assert(set![ch].contains(r as int));
                            }
                            let ghost before = self.grid(buffer.rest@);
                            assert(buffer.rest@[0] == self.grid(buffer.rest@).placed);
                            assert(g0.placed == s0[0]);
                            self.apply_player(buffer, round, table, player);
                            proof {
                                self.lemma_grows_apply(before, r as int, t as int, player as int);
                                lemma_grows_trans(g0, before, self.grid(buffer.rest@));
                                assert(self.grid(buffer.rest@).played_on_table_total[t as int] == gs.played_on_table_total[t as int].insert(
                                    player as int,
                                ));
                            }
                        },
                        Ok(None) => {
                            proof {
                                assert forall|x: int| self.table_rounds(gs, t as int, player as int) != set![x] by {
                                    assert(set![x].contains(x));
                                }
                            }
                        },
                        Err(()) => {
                            proof {
                                let (a, b) = choose|a: int, b: int|
                                    a != b && self.table_rounds(gs, t as int, player as int).contains(a)
                                        && self.table_rounds(gs, t as int, player as int).contains(b);
                                assert forall|x: int| self.table_rounds(gs, t as int, player as int) != set![x] by {
                                    if self.table_rounds(gs, t as int, player as int) == set![x] {
                                        assert(a == x && b == x);
                                    }
                                }
                            }
                        },
                    }
                    proof {
                        pos = tz + 1;
                        if potential == 0 {
                            crate::bits::lemma_zero_iff_no_bits(potential);
                            assert forall|p: int| 64 * byte + pos <= p < 64 * byte + 64 implies #[trigger] self.table_single(
                                self.tables_pass(g0, self.pass_index(t as int, 64 * byte + pos)),
                                t as int,
                                p,
                            ) == self.tables_pass(g0, self.pass_index(t as int, 64 * byte + pos)) by {
                                assert(!crate::bits::bit(potential, p - 64 * byte));
                                assert(!crate::bits::bit(before, p - 64 * byte));
                            }
                            self.lemma_tables_skip(g0, t as int, 64 * byte + pos, 64 * byte + 64);
                        }
                    }
                }
                byte = byte + 1;
            }
            proof {
                assert(64 * wi * t + 64 * wi == 64 * wi * (t + 1)) by (nonlinear_arith);
                assert(64 * wi >= pc);
                assert(t * pc + pc == (t + 1) * pc) by (nonlinear_arith);
                assert(self.pass_index(t as int, 64 * w) == (t + 1) * pc);
            }
            t = t + 1;
        }
    }
}

/// Facts that placing `player` on `table` of `round` needs of the grid.
proof fn lemma_grid_step(sch: &Scheduler, s: Seq<u64>, round: int, table: int, player: int)
    requires
        sch.wf(),
    ensures
        sch.grid(s).placed == s[0],
        sch.grid(s).played_with.len() == sch.spec_player_count(),
        sch.grid(s).played_on_table_total.len() == sch.spec_table_count(),
        sch.grid(s).played_in_round.len() == sch.spec_rounds(),
        sch.grid(s).played_on_table.len() == sch.spec_rounds() * sch.spec_table_count(),
        sch.grid(s).potential_on_table.len() == sch.spec_rounds() * sch.spec_table_count(),
{
    sch.lemma_grid_lens(s);
}


impl<'a> Scheduler<'a> {
    /// Seats every player that has a single possible table in some round, or a
    /// single possible round at some table; each such player is seated there.
    /// The rounds are looked at first, each over the players in order, then the
    /// tables; each look sees the placements of the looks before it.
    pub fn find_hidden_singles(&self, buffer: &mut Schedule)
        requires
            self.wf(),
            self.rest_wf(old(buffer).rest_spec()),
            old(buffer).rest_spec()[0] + self.singles_budget() <= u64::MAX,
        ensures
            final(buffer).to_explore_spec() == old(buffer).to_explore_spec(),
            final(buffer).rest_spec().len() == old(buffer).rest_spec().len(),
            forall|j: int|
                self.spec_rest_len() <= j < old(buffer).rest_spec().len() ==> final(buffer).rest_spec()[j]
                    == old(buffer).rest_spec()[j],
            self.rest_wf(final(buffer).rest_spec()),
            grows(self.grid(old(buffer).rest_spec()), self.grid(final(buffer).rest_spec())),
            self.grid(final(buffer).rest_spec()).placed <= self.grid(old(buffer).rest_spec()).placed
                + self.singles_budget(),
            self.grid(final(buffer).rest_spec()) == self.tables_pass(
                self.rounds_pass(
                    self.grid(old(buffer).rest_spec()),
                    (self.spec_rounds() * self.spec_player_count()) as nat,
                ),
                (self.spec_table_count() * self.spec_player_count()) as nat,
            ),
    {
        let ghost g0 = self.grid(buffer.rest@);
        proof {
            self.lemma_layout();
            assert(64 * self.spec_words() * (self.spec_rounds() + self.spec_table_count()) == 64
                * self.spec_words() * self.spec_rounds() + 64 * self.spec_words() * self.spec_table_count())
                by (nonlinear_arith);
            assert(64 * self.spec_words() * self.spec_rounds() >= 0) by (nonlinear_arith)
                requires self.spec_words() >= 0, self.spec_rounds() >= 0;
            assert(64 * self.spec_words() * self.spec_table_count() >= 0) by (nonlinear_arith)
                requires self.spec_words() >= 0, self.spec_table_count() >= 0;
        }
        self.singles_in_rounds(buffer);
        let ghost g1 = self.grid(buffer.rest@);
        proof {
            assert(buffer.rest@[0] == g1.placed);
        }
        self.singles_in_tables(buffer);
        proof {
            lemma_grows_trans(g0, g1, self.grid(buffer.rest@));
        }
    }

    /// Looks at player `q` for `table` of `round`: a candidate there that may
    /// sit is seated, a candidate that may not is dropped from the table's
    /// potential players, and anyone else changes nothing.
    pub open spec fn fill_look(&self, g: Grid, round: int, table: int, q: int) -> Grid {
        let c = round * self.spec_table_count() + table;
        if candidates(g, c).contains(q) {
            if can_sit(g, c, q) {
                self.apply_spec(g, round, table, q)
            } else {
                with_cell_potential(g, g.empty, c, g.potential_on_table[c].remove(q))
            }
        } else {
            g
        }
    }

    /// The state after looking, in order, at the players below `k` for `table`
    /// of `round`.
    pub open spec fn fill_pass(&self, g: Grid, round: int, table: int, k: nat) -> Grid
        decreases k,
    {
        if k == 0 {
            g
        } else {
            self.fill_look(self.fill_pass(g, round, table, (k - 1) as nat), round, table, k - 1)
        }
    }

    /// Looks at players that are not candidates change nothing.
    proof fn lemma_fill_skip(&self, g0: Grid, round: int, table: int, a: nat, b: nat)
        requires
            a <= b,
            forall|q: int|
                a <= q < b ==> !#[trigger] candidates(
                    self.fill_pass(g0, round, table, a),
                    round * self.spec_table_count() + table,
                ).contains(q),
        ensures
            self.fill_pass(g0, round, table, b) == self.fill_pass(g0, round, table, a),
        decreases b - a,
    {
        if a < b {
            self.lemma_fill_skip(g0, round, table, a, (b - 1) as nat);
        }
    }

    /// Seats on `table` of `round`, in player order, every potential player that
    /// has played with none of the players already there; drops from the
    /// table's potential players those that have. Afterwards every potential
    /// player of the table is placed there.
    #[verifier::rlimit(80)]
    #[verifier::spinoff_prover]
    fn fill_table(&self, buffer: &mut Schedule, round: Round, table: Table)
        requires
            self.wf(),
            self.rest_wf(old(buffer).rest_spec()),
            round.value() < self.spec_rounds(),
            table.value() < self.spec_table_count(),
            old(buffer).rest_spec()[0] + 64 * self.spec_words() <= u64::MAX,
        ensures
            final(buffer).to_explore_spec() == old(buffer).to_explore_spec(),
            final(buffer).rest_spec().len() == old(buffer).rest_spec().len(),
            forall|j: int|
                self.spec_rest_len() <= j < old(buffer).rest_spec().len() ==> final(buffer).rest_spec()[j]
                    == old(buffer).rest_spec()[j],
            self.rest_wf(final(buffer).rest_spec()),
            grows(self.grid(old(buffer).rest_spec()), self.grid(final(buffer).rest_spec())),
            self.grid(final(buffer).rest_spec()).placed <= self.grid(old(buffer).rest_spec()).placed + 64
                * self.spec_words(),
            candidates(
                self.grid(final(buffer).rest_spec()),
                round.value() * self.spec_table_count() + table.value(),
            ).is_empty(),
            self.others_kept(
                self.grid(old(buffer).rest_spec()),
                self.grid(final(buffer).rest_spec()),
                round.value() * self.spec_table_count() + table.value(),
            ),
            self.grid(final(buffer).rest_spec()) == self.fill_pass(
                self.grid(old(buffer).rest_spec()),
                round.value() as int,
                table.value() as int,
                (64 * self.spec_words()) as nat,
            ),
    {
        let ghost g0 = self.grid(buffer.rest@);
        let ghost s0 = buffer.rest@;
        let ghost te0 = buffer.to_explore;
        let ghost tci = self.spec_table_count();
        let ghost c = round.value() * tci + table.value();
        let ghost wi = self.spec_words();
        proof {
            self.lemma_layout();
            lemma_pair_index(round.value() as int, table.value() as int, self.spec_rounds(), tci);
            assert(cell(wi, c) + wi <= cell(wi, self.spec_rounds() * tci));
            crate::bits::lemma_region_len(s0, self.spec_potential_off() + cell(wi, c), wi);
            crate::bits::lemma_region_len(s0, self.spec_fixed_off() + cell(wi, c), wi);
            self.lemma_grid_lens(s0);
        }
        let w = self.player_bit_word_count;
        let cc = round.as_usize() * self.tables.len() + table.as_usize();
        let potential_index = self.offsets.potential_on_table_offset + w * cc;
        let fixed_index = self.offsets.played_on_table_offset + w * cc;
        let ghost diff0 = candidates(g0, c);
        proof {
            assert(diff0.finite());
            assert(diff0.len() <= g0.potential_on_table[c].len()) by {
                vstd::set_lib::lemma_len_subset(diff0, g0.potential_on_table[c]);
            }
        }
        let mut byte: usize = 0;
        while byte < w
            invariant
                self.wf(),
                w == wi,
                wi == self.spec_words(),
                tci == self.spec_table_count(),
                byte <= wi,
                round.value() < self.spec_rounds(),
                table.value() < tci,
                cc == c,
                c == round.value() * tci + table.value(),
                0 <= c < self.spec_rounds() * tci,
                potential_index == self.spec_potential_off() + cell(wi, c),
                fixed_index == self.spec_fixed_off() + cell(wi, c),
                potential_index + wi <= self.spec_rest_len(),
                fixed_index + wi <= self.spec_potential_off(),
                g0 == self.grid(s0),
                s0[0] + 64 * wi <= u64::MAX,
                diff0.finite(),
                diff0.len() <= 64 * wi,
                buffer.to_explore == te0,
                buffer.rest@.len() == s0.len(),
                forall|j: int| self.spec_rest_len() <= j < s0.len() ==> buffer.rest@[j] == s0[j],
                self.rest_wf(buffer.rest@),
                grows(g0, self.grid(buffer.rest@)),
                ({
                    let g = self.grid(buffer.rest@);
                    let d = candidates(g, c);
                    &&& d.finite()
                    &&& g.placed + d.len() <= g0.placed + diff0.len()
                }),
                forall|q: int| #[trigger] candidates(self.grid(buffer.rest@), c).contains(q) ==> q >= 64 * byte,
                self.others_kept(g0, self.grid(buffer.rest@), c),
                self.grid(buffer.rest@) == self.fill_pass(g0, round.value() as int, table.value() as int, (64 * byte) as nat),
            decreases wi - byte,
        {
            let ghost mut seen: int = 64 * byte;
            loop
                invariant
                    self.wf(),
                    w == wi,
                    wi == self.spec_words(),
                    tci == self.spec_table_count(),
                    byte < wi,
                    round.value() < self.spec_rounds(),
                    table.value() < tci,
                    cc == c,
                    c == round.value() * tci + table.value(),
                    0 <= c < self.spec_rounds() * tci,
                    potential_index == self.spec_potential_off() + cell(wi, c),
                    fixed_index == self.spec_fixed_off() + cell(wi, c),
                    potential_index + wi <= self.spec_rest_len(),
                    fixed_index + wi <= self.spec_potential_off(),
                    g0 == self.grid(s0),
                    s0[0] + 64 * wi <= u64::MAX,
                    diff0.finite(),
                    diff0.len() <= 64 * wi,
                    buffer.to_explore == te0,
                    buffer.rest@.len() == s0.len(),
                    forall|j: int| self.spec_rest_len() <= j < s0.len() ==> buffer.rest@[j] == s0[j],
                    self.rest_wf(buffer.rest@),
                    grows(g0, self.grid(buffer.rest@)),
                    ({
                        let g = self.grid(buffer.rest@);
                        let d = candidates(g, c);
                        &&& d.finite()
                        &&& g.placed + d.len() <= g0.placed + diff0.len()
                    }),
                    forall|q: int| #[trigger] candidates(self.grid(buffer.rest@), c).contains(q) ==> q >= 64 * byte,
                    self.others_kept(g0, self.grid(buffer.rest@), c),
                    64 * byte <= seen <= 64 * byte + 64,
                    forall|q: int| #[trigger] candidates(self.grid(buffer.rest@), c).contains(q) ==> q >= seen,
                    self.grid(buffer.rest@) == self.fill_pass(g0, round.value() as int, table.value() as int, seen as nat),
                ensures
                    forall|q: int| #[trigger] candidates(self.grid(buffer.rest@), c).contains(q) ==> q >= 64 * (
                    byte + 1),
                    self.grid(buffer.rest@) == self.fill_pass(
                        g0,
                        round.value() as int,
                        table.value() as int,
                        (64 * byte + 64) as nat,
                    ),
                decreases candidates(self.grid(buffer.rest@), c).len(),
            {
                let ghost g = self.grid(buffer.rest@);
                let ghost d = candidates(g, c);
                let pword = buffer.rest[potential_index + byte];
                let fword = buffer.rest[fixed_index + byte];
                let potential = pword & !fword;
                if potential == 0 {
                    proof {
                        crate::bits::lemma_bit_ops();
                        assert forall|q: int| #[trigger] d.contains(q) implies q >= 64 * (byte + 1) by {
                            if q < 64 * (byte + 1) {
                                let i = q - 64 * byte;
                                crate::bits::lemma_region_word(buffer.rest@, potential_index as int, wi, byte as int, i);
                                crate::bits::lemma_region_word(buffer.rest@, fixed_index as int, wi, byte as int, i);
                                assert(crate::bits::bit(potential, i));
                            }
                        }
                        self.lemma_fill_skip(g0, round.value() as int, table.value() as int, seen as nat, (64 * byte + 64) as nat);
                    }
                    break;
                }
                proof {
                    crate::bits::lemma_trailing_zeros(potential);
                    crate::bits::lemma_bit_ops();
                }
                let tz = potential.trailing_zeros();
                let player = byte * 64 + tz as usize;
                let bit = 1u64 << (tz as u64);
                proof {
                    crate::bits::lemma_region_word(buffer.rest@, potential_index as int, wi, byte as int, tz as int);
                    crate::bits::lemma_region_word(buffer.rest@, fixed_index as int, wi, byte as int, tz as int);
                    assert(g.potential_on_table[c].contains(player as int));
                    assert(!g.played_on_table[c].contains(player as int));
                    assert(d.contains(player as int));
                    assert(g.potential_on_table[c].subset_of(self.players()));
                    assert(player < self.spec_player_count());
                    lemma_grid_step(self, buffer.rest@, round.value() as int, table.value() as int, player as int);
                    assert(d.len() >= 1) by {
                        vstd::set_lib::lemma_len_subset(d.remove(player as int), d);
                    }
                    assert(buffer.rest@[0] == g.placed);
                    assert forall|q: int| #[trigger] d.contains(q) implies q >= player by {
                        if q < player {
                            let i = q - 64 * byte;
                            crate::bits::lemma_region_word(buffer.rest@, potential_index as int, wi, byte as int, i);
                            crate::bits::lemma_region_word(buffer.rest@, fixed_index as int, wi, byte as int, i);
                            assert(crate::bits::bit(potential, i));
                        }
                    }
                    self.lemma_fill_skip(g0, round.value() as int, table.value() as int, seen as nat, player as nat);
                    assert(self.fill_pass(g0, round.value() as int, table.value() as int, (player + 1) as nat)
                        == self.fill_look(g, round.value() as int, table.value() as int, player as int));
                }
                if self.can_place_player_on_table(buffer, round, table, player) {
                    self.apply_player(buffer, round, table, player);
                    proof {
                        self.lemma_grows_apply(g, round.value() as int, table.value() as int, player as int);
                        self.lemma_apply_other(g, round.value() as int, table.value() as int, player as int);
                        lemma_grows_trans(g0, g, self.grid(buffer.rest@));
                        lemma_others_trans(self, g0, g, self.grid(buffer.rest@), c);
                        let g2 = self.grid(buffer.rest@);
                        let d2 = candidates(g2, c);
                        assert(d2.subset_of(d.remove(player as int)));
                        vstd::set_lib::lemma_len_subset(d2, d.remove(player as int));
                        assert(g2 == self.fill_look(g, round.value() as int, table.value() as int, player as int));
                        seen = player + 1;
                    }
                } else {
                    let ghost prev = buffer.rest@;
                    let k = potential_index + byte;
                    buffer.rest.set(k, pword & !bit);
                    proof {
                        self.lemma_layout();
                        crate::bits::lemma_region_clear_bit(prev, potential_index as int, wi, player as int);
                        assert(prev.update(k as int, prev[k as int] & !(1u64 << ((player as int % 64) as u64))) == buffer.rest@);
                        self.lemma_write_in(prev, buffer.rest@, 4, c, k as int, k + 1);
                        let g2 = self.grid(buffer.rest@);
                        assert(Self::family(g2, 0) == Self::family(g, 0));
                        assert(Self::family(g2, 1) == Self::family(g, 1));
                        assert(Self::family(g2, 2) == Self::family(g, 2));
                        assert(Self::family(g2, 3) == Self::family(g, 3));
                        assert(g2.potential_on_table[c] == g.potential_on_table[c].remove(player as int));
                        lemma_grows_trans(g0, g, g2);
                        let d2 = candidates(g2, c);
                        assert(d2 =~= d.remove(player as int));
                        assert forall|c2: int| 0 <= c2 < g2.potential_on_table.len() implies #[trigger] g2.potential_on_table[c2].subset_of(self.players()) by {
                            assert(g.potential_on_table[c2].subset_of(self.players()));
                        }
                        assert(self.others_kept(g, g2, c));
                        lemma_others_trans(self, g0, g, g2, c);
                        assert(g2.potential_on_table =~= g.potential_on_table.update(c, g.potential_on_table[c].remove(player as int)));
                        assert(g2 =~= with_cell_potential(g, g.empty, c, g.potential_on_table[c].remove(player as int)));
                        assert(g2 == self.fill_look(g, round.value() as int, table.value() as int, player as int));
                        seen = player + 1;
                    }
                }
            }
            byte = byte + 1;
        }
        proof {
            assert(self.grid(buffer.rest@).placed <= g0.placed + 64 * wi);
            let g = self.grid(buffer.rest@);
            assert forall|q: int| !#[trigger] candidates(g, c).contains(q) by {
                if candidates(g, c).contains(q) {
                    assert(g.potential_on_table[c].subset_of(self.players()));
                    assert(self.players().contains(q));
                }
            }
            assert(candidates(g, c) =~= Set::empty());
        }
    }
}

/// The players that may still be seated at cell `c` of `g`: its potential
/// players not yet placed there.
pub open spec fn candidates(g: Grid, c: int) -> Set<int> {
    g.potential_on_table[c].difference(g.played_on_table[c])
}

/// Whether player `q` may sit at cell `c` of `g`: it has played with none of
/// the players placed there.
pub open spec fn can_sit(g: Grid, c: int, q: int) -> bool {
    g.played_with[q].disjoint(g.played_on_table[c])
}

/// Whether `p` is the first candidate of cell `c` of `g` that may sit there.
pub open spec fn first_seatable(g: Grid, c: int, p: int) -> bool {
    &&& candidates(g, c).contains(p)
    &&& can_sit(g, c, p)
    &&& forall|q: int| #[trigger] candidates(g, c).contains(q) && q < p ==> !can_sit(g, c, q)
}

/// The table kept to branch on, as the walk of a step records it: its count of
/// players and its to-explore number `n`.
pub open spec fn low_of(lowest: Option<(u32, Round, Table)>, n: int) -> Option<(int, int)> {
    match lowest {
        Some(l) => Some((l.0 as int, n)),
        None => None,
    }
}

/// There is one first candidate that may sit.
proof fn lemma_first_seatable_unique(g: Grid, c: int, p1: int, p2: int)
    requires
        first_seatable(g, c, p1),
        first_seatable(g, c, p2),
    ensures
        p1 == p2,
{
    if p1 < p2 {
        assert(candidates(g, c).contains(p1));
    } else if p2 < p1 {
        assert(candidates(g, c).contains(p2));
    }
}

/// The candidates of cell `c` of `g` up to player `p`.
pub open spec fn candidates_upto(g: Grid, c: int, p: int) -> Set<int> {
    Set::new(|q: int| candidates(g, c).contains(q) && q <= p)
}

impl<'a> Scheduler<'a> {
    /// Every cell other than `c` keeps its placed players and keeps or loses
    /// potential players from `g` to `g2`.
    pub open spec fn others_kept(&self, g: Grid, g2: Grid, c: int) -> bool {
        forall|c2: int|
            0 <= c2 < self.spec_rounds() * self.spec_table_count() && c2 != c ==> {
                &&& #[trigger] g2.potential_on_table[c2].subset_of(g.potential_on_table[c2])
                &&& g2.played_on_table[c2] == g.played_on_table[c2]
            }
    }

    /// Placing a player changes the placed players of its own cell only, and
    /// only removes potential players elsewhere.
    proof fn lemma_apply_other(&self, g: Grid, ro: int, ta: int, player: int)
        requires
            self.wf(),
            0 <= ro < self.spec_rounds(),
            0 <= ta < self.spec_table_count(),
            g.played_on_table.len() == self.spec_rounds() * self.spec_table_count(),
            g.potential_on_table.len() == self.spec_rounds() * self.spec_table_count(),
        ensures
            self.others_kept(g, self.apply_spec(g, ro, ta, player), ro * self.spec_table_count() + ta),
    {
        lemma_pair_index(ro, ta, self.spec_rounds(), self.spec_table_count());
    }
}

/// Keeping the other cells is transitive.
#[verifier::spinoff_prover]
proof fn lemma_others_trans(sch: &Scheduler, g1: Grid, g2: Grid, g3: Grid, c: int)
    requires
        sch.others_kept(g1, g2, c),
        sch.others_kept(g2, g3, c),
    ensures
        sch.others_kept(g1, g3, c),
{
    assert forall|c2: int|
        0 <= c2 < sch.spec_rounds() * sch.spec_table_count() && c2 != c implies {
            &&& #[trigger] g3.potential_on_table[c2].subset_of(g1.potential_on_table[c2])
            &&& g3.played_on_table[c2] == g1.played_on_table[c2]
        } by {
        lemma_subset_trans(g3.potential_on_table[c2], g2.potential_on_table[c2], g1.potential_on_table[c2]);
    }
}

/// The state `g` with `empty` tables left to fill and the potential players of
/// cell `c` set to `s`.
pub open spec fn with_cell_potential(g: Grid, empty: u64, c: int, s: Set<int>) -> Grid {
    Grid {
        placed: g.placed,
        empty: empty,
        played_with: g.played_with,
        played_on_table_total: g.played_on_table_total,
        played_in_round: g.played_in_round,
        played_on_table: g.played_on_table,
        potential_on_table: g.potential_on_table.update(c, s),
    }
}

impl<'a> Scheduler<'a> {
    /// Closes `table` of `round`, which is full: its potential players become
    /// its placed players, and one table fewer is left to fill.
    fn settle_table(&self, buffer: &mut Schedule, round: Round, table: Table)
        requires
            self.wf(),
            self.rest_wf(old(buffer).rest_spec()),
            round.value() < self.spec_rounds(),
            table.value() < self.spec_table_count(),
            old(buffer).rest_spec()[1] >= 1,
        ensures
            final(buffer).to_explore_spec() == old(buffer).to_explore_spec(),
            final(buffer).rest_spec().len() == old(buffer).rest_spec().len(),
            forall|j: int|
                self.spec_rest_len() <= j < old(buffer).rest_spec().len() ==> final(buffer).rest_spec()[j]
                    == old(buffer).rest_spec()[j],
            self.rest_wf(final(buffer).rest_spec()),
            ({
                let g = self.grid(old(buffer).rest_spec());
                let c = round.value() * self.spec_table_count() + table.value();
                self.grid(final(buffer).rest_spec()) == with_cell_potential(
                    g,
                    (g.empty - 1) as u64,
                    c,
                    g.played_on_table[c],
                )
            }),
    {
        let ghost s0 = buffer.rest@;
        let ghost g = self.grid(s0);
        let ghost tci = self.spec_table_count();
        let ghost c = round.value() * tci + table.value();
        let ghost wi = self.spec_words();
        proof {
            self.lemma_layout();
            lemma_pair_index(round.value() as int, table.value() as int, self.spec_rounds(), tci);
            assert(cell(wi, c) + wi <= cell(wi, self.spec_rounds() * tci));
            self.lemma_grid_lens(s0);
        }
        let w = self.player_bit_word_count;
        let cc = round.as_usize() * self.tables.len() + table.as_usize();
        let potential_index = self.offsets.potential_on_table_offset + w * cc;
        let fixed_index = self.offsets.played_on_table_offset + w * cc;
        copy_run(&mut buffer.rest, potential_index, fixed_index, w);
        let ghost s1 = buffer.rest@;
        proof {
            self.lemma_write_in(s0, s1, 4, c, potential_index as int, potential_index + w);
            let g1 = self.grid(s1);
            assert(Self::family(g1, 0) == Self::family(g, 0));
            assert(Self::family(g1, 1) == Self::family(g, 1));
            assert(Self::family(g1, 2) == Self::family(g, 2));
            assert(Self::family(g1, 3) == Self::family(g, 3));
            assert(g1.potential_on_table[c] == g.played_on_table[c]);
            assert(g1.potential_on_table =~= g.potential_on_table.update(c, g.played_on_table[c]));
        }
        let e = buffer.rest[1];
        buffer.rest.set(1, e - 1);
        proof {
            self.lemma_grid_frame(s1, buffer.rest@, 1, 2);
            let g1 = self.grid(s1);
            let g2 = self.grid(buffer.rest@);
            assert(g2.played_with =~= g1.played_with);
            assert(g2.played_on_table_total =~= g1.played_on_table_total);
            assert(g2.played_in_round =~= g1.played_in_round);
            assert(g2.played_on_table =~= g1.played_on_table);
            assert(g2.potential_on_table =~= g1.potential_on_table);
            assert(g2 =~= with_cell_potential(g, (g.empty - 1) as u64, c, g.played_on_table[c]));
            assert forall|c2: int| 0 <= c2 < g2.potential_on_table.len() implies #[trigger] g2.potential_on_table[c2].subset_of(self.players()) by {
                assert(g.potential_on_table[c2].subset_of(self.players()));
                assert(g.played_on_table[c2].subset_of(self.players()));
            }
        }
    }
}

/// Whether `g2` extends `g` with tables closed on the way: at most as many
/// tables left to fill, at least as many placements, and every placed,
/// played-with, played-in-round and played-on-table set kept.
pub open spec fn extends(g: Grid, g2: Grid) -> bool {
    &&& g2.empty <= g.empty
    &&& g2.placed >= g.placed
    &&& g2.played_with.len() == g.played_with.len()
    &&& g2.played_on_table_total.len() == g.played_on_table_total.len()
    &&& g2.played_in_round.len() == g.played_in_round.len()
    &&& g2.played_on_table.len() == g.played_on_table.len()
    &&& g2.potential_on_table.len() == g.potential_on_table.len()
    &&& forall|i: int| 0 <= i < g.played_with.len() ==> #[trigger] g.played_with[i].subset_of(g2.played_with[i])
    &&& forall|i: int|
        0 <= i < g.played_on_table_total.len() ==> #[trigger] g.played_on_table_total[i].subset_of(
            g2.played_on_table_total[i],
        )
    &&& forall|i: int| 0 <= i < g.played_in_round.len() ==> #[trigger] g.played_in_round[i].subset_of(g2.played_in_round[i])
    &&& forall|i: int| 0 <= i < g.played_on_table.len() ==> #[trigger] g.played_on_table[i].subset_of(g2.played_on_table[i])
}

/// Extending without closing tables is extending.
proof fn lemma_grows_extends(g: Grid, g2: Grid)
    requires
        grows(g, g2),
    ensures
        extends(g, g2),
{
}

/// Extending is transitive.
/// Extending is transitive.
pub proof fn lemma_extends_trans(g1: Grid, g2: Grid, g3: Grid)
    requires
        extends(g1, g2),
        extends(g2, g3),
    ensures
        extends(g1, g3),
{
    assert forall|i: int| 0 <= i < g1.played_with.len() implies #[trigger] g1.played_with[i].subset_of(g3.played_with[i]) by {
        lemma_subset_trans(g1.played_with[i], g2.played_with[i], g3.played_with[i]);
    }
    assert forall|i: int| 0 <= i < g1.played_on_table_total.len() implies #[trigger] g1.played_on_table_total[i].subset_of(g3.played_on_table_total[i]) by {
        lemma_subset_trans(g1.played_on_table_total[i], g2.played_on_table_total[i], g3.played_on_table_total[i]);
    }
    assert forall|i: int| 0 <= i < g1.played_in_round.len() implies #[trigger] g1.played_in_round[i].subset_of(g3.played_in_round[i]) by {
        lemma_subset_trans(g1.played_in_round[i], g2.played_in_round[i], g3.played_in_round[i]);
    }
    assert forall|i: int| 0 <= i < g1.played_on_table.len() implies #[trigger] g1.played_on_table[i].subset_of(g3.played_on_table[i]) by {
        lemma_subset_trans(g1.played_on_table[i], g2.played_on_table[i], g3.played_on_table[i]);
    }
}

impl<'a> Scheduler<'a> {
    /// Whether every table of `nums` other than that of `n`, with fewer players
    /// placed than it, or as many and coming before it, admits no more players.
    pub open spec fn fewest_first(&self, g: Grid, nums: Set<int>, n: int) -> bool {
        forall|k: int|
            #[trigger] nums.contains(k) && self.explore_in_range(k) && k != n && (g.played_on_table[self.explore_cell(
                k,
            )].len() < g.played_on_table[self.explore_cell(n)].len() || (g.played_on_table[self.explore_cell(k)].len()
                == g.played_on_table[self.explore_cell(n)].len() && k < n)) ==> self.is_filled(g, k)
    }

    /// Changing only the table of `n` keeps the tables ranked before that of
    /// `low` admitting no more players.
    proof fn lemma_fewest_kept(&self, g: Grid, g2: Grid, n: int, vis: Set<int>, vis2: Set<int>, low: int)
        requires
            self.wf(),
            self.explore_in_range(n),
            self.explore_in_range(low),
            low != n,
            self.others_kept(g, g2, self.explore_cell(n)),
            self.fewest_first(g, vis, low),
            forall|k: int| vis2.contains(k) && k != n ==> vis.contains(k),
            forall|k: int| vis.contains(k) ==> self.visited_ok(g, k),
            vis2.contains(n) ==> self.is_filled(g2, n),
        ensures
            self.fewest_first(g2, vis2, low),
    {
        self.lemma_kept_status(g, g2, n, low);
        assert forall|k: int|
            #[trigger] vis2.contains(k) && self.explore_in_range(k) && k != low && (g2.played_on_table[self.explore_cell(
                k,
            )].len() < g2.played_on_table[self.explore_cell(low)].len() || (g2.played_on_table[self.explore_cell(k)].len()
                == g2.played_on_table[self.explore_cell(low)].len() && k < low)) implies self.is_filled(g2, k) by {
            if k != n {
                assert(vis.contains(k));
                self.lemma_kept_status(g, g2, n, k);
            }
        }
    }

    /// Whether `g1` is `m` after branching on the table of `n` with player `p`:
    /// `p` is the first candidate of the table in `m` that may sit there, and
    /// `g1` is `m` with the candidates up to `p` dropped from the table's
    /// potential players.
    pub open spec fn chosen_branch(&self, m: Grid, g1: Grid, n: int, p: int) -> bool {
        let c = self.explore_cell(n);
        &&& g1 == with_cell_potential(m, m.empty, c, g1.potential_on_table[c])
        &&& first_seatable(m, c, p)
        &&& g1.potential_on_table[c] == m.potential_on_table[c].difference(candidates_upto(m, c, p))
    }

    /// The search buffer that `initialise_buffer` writes has every player
    /// placed; the branch that a step makes has one player more placed than
    /// the side of the step that does not branch.
    pub proof fn lemma_placed_counts(&self, b1: Seq<u64>, b2: Seq<u64>, n: int, p: int)
        requires
            self.wf(),
            self.spec_rounds() >= 1,
        ensures
            self.seated(self.spec_player_count() as nat).placed == self.spec_player_count(),
            self.explore_in_range(n) && self.is_branch(self.state_of(b1), self.state_of(b2), n, p)
                && self.state_of(b1).placed < u64::MAX ==> self.state_of(b2).placed == self.state_of(b1).placed + 1,
    {
        self.lemma_layout();
        self.lemma_seated(self.spec_player_count() as nat);
    }

    /// A word of a part of `cnt` runs of `w` words that starts at `off` is the
    /// same in two buffers whose runs hold the same numbers.
    proof fn lemma_part_word(s1: Seq<u64>, s2: Seq<u64>, off: int, w: int, cnt: int, k: int)
        requires
            w > 0,
            cnt >= 0,
            off <= k < off + w * cnt,
            forall|i: int| 0 <= i < cnt ==> crate::bits::region(s1, off + #[trigger] cell(w, i), w) == crate::bits::region(
                s2,
                off + cell(w, i),
                w,
            ),
        ensures
            s1[k] == s2[k],
    {
        let x = k - off;
        let i = x / w;
        let j = x % w;
        assert(x == w * i + j && 0 <= j < w) by {
            vstd::arithmetic::div_mod::lemma_fundamental_div_mod(x, w);
        }
        assert(0 <= i < cnt) by (nonlinear_arith)
            requires x == w * i + j, 0 <= j < w, 0 <= x < w * cnt, w > 0;
        assert(crate::bits::region(s1, off + cell(w, i), w) == crate::bits::region(s2, off + cell(w, i), w));
        crate::bits::lemma_region_words(s1, s2, off + cell(w, i), w, j);
    }

    /// Search buffers of the block size that hold the same state and the same
    /// to-explore numbers are equal word for word.
    pub proof fn lemma_view_words(&self, b: Seq<u64>, c: Seq<u64>)
        requires
            self.wf(),
            b.len() == self.spec_block_size(),
            c.len() == b.len(),
            self.state_of(b) == self.state_of(c),
            self.explore_of(b) == self.explore_of(c),
        ensures
            b == c,
    {
        self.lemma_layout();
        let te = self.spec_to_explore_size();
        let bs = self.spec_block_size();
        let w = self.spec_words();
        let sb = b.subrange(te, bs);
        let sc = c.subrange(te, bs);
        let gb = self.grid(sb);
        let gc = self.grid(sc);
        assert(bs == te + self.spec_rest_len());
        assert forall|j: int| 0 <= j < b.len() implies b[j] == c[j] by {
            if j < te {
                assert forall|i: int| 0 <= i < 64 implies #[trigger] crate::bits::bit(b[j], i) == crate::bits::bit(c[j], i) by {
                    let n = 64 * j + i;
                    assert(n / 64 == j && n % 64 == i);
                    assert(self.explore_of(b).contains(n) == crate::bits::bit(b.subrange(0, te)[j], i));
                    assert(self.explore_of(c).contains(n) == crate::bits::bit(c.subrange(0, te)[j], i));
                }
                crate::bits::lemma_bits_equal(b[j], c[j]);
            } else {
                let k = j - te;
                assert(sb[k] == b[j] && sc[k] == c[j]);
                if k == 0 {
                    assert(gb.placed == gc.placed);
                } else if k == 1 {
                    assert(gb.empty == gc.empty);
                } else {
                    assert(w > 0) by {
                        if w == 0 {
                            let pc = self.spec_player_count();
                            let tc = self.spec_table_count();
                            let rc = self.spec_rounds();
                            assert(w * pc == 0 && w * tc == 0 && w * rc == 0 && w * (rc * tc) == 0) by (nonlinear_arith)
                                requires w == 0;
                        }
                    }
                    if k < self.spec_total_off() {
                        assert forall|i: int| 0 <= i < self.spec_player_count() implies crate::bits::region(sb, self.spec_with_off() + #[trigger] cell(w, i), w)
                            == crate::bits::region(sc, self.spec_with_off() + cell(w, i), w) by {
                            assert(gb.played_with[i] == gc.played_with[i]);
                        }
                        Self::lemma_part_word(sb, sc, self.spec_with_off(), w, self.spec_player_count(), k);
                    } else if k < self.spec_round_off() {
                        assert forall|i: int| 0 <= i < self.spec_table_count() implies crate::bits::region(sb, self.spec_total_off() + #[trigger] cell(w, i), w)
                            == crate::bits::region(sc, self.spec_total_off() + cell(w, i), w) by {
                            assert(gb.played_on_table_total[i] == gc.played_on_table_total[i]);
                        }
                        Self::lemma_part_word(sb, sc, self.spec_total_off(), w, self.spec_table_count(), k);
                    } else if k < self.spec_fixed_off() {
                        assert forall|i: int| 0 <= i < self.spec_rounds() implies crate::bits::region(sb, self.spec_round_off() + #[trigger] cell(w, i), w)
                            == crate::bits::region(sc, self.spec_round_off() + cell(w, i), w) by {
                            assert(gb.played_in_round[i] == gc.played_in_round[i]);
                        }
                        Self::lemma_part_word(sb, sc, self.spec_round_off(), w, self.spec_rounds(), k);
                    } else if k < self.spec_potential_off() {
                        assert forall|i: int| 0 <= i < self.spec_rounds() * self.spec_table_count() implies crate::bits::region(sb, self.spec_fixed_off() + #[trigger] cell(w, i), w)
                            == crate::bits::region(sc, self.spec_fixed_off() + cell(w, i), w) by {
                            assert(gb.played_on_table[i] == gc.played_on_table[i]);
                        }
                        Self::lemma_part_word(sb, sc, self.spec_fixed_off(), w, self.spec_rounds() * self.spec_table_count(), k);
                    } else {
                        assert forall|i: int| 0 <= i < self.spec_rounds() * self.spec_table_count() implies crate::bits::region(sb, self.spec_potential_off() + #[trigger] cell(w, i), w)
                            == crate::bits::region(sc, self.spec_potential_off() + cell(w, i), w) by {
                            assert(gb.potential_on_table[i] == gc.potential_on_table[i]);
                        }
                        Self::lemma_part_word(sb, sc, self.spec_potential_off(), w, self.spec_rounds() * self.spec_table_count(), k);
                    }
                }
            }
        }
        assert(b =~= c);
    }

    /// The branch that seats a player extends the search buffer it branched
    /// from.
    pub proof fn lemma_branch_extends(&self, b1: Seq<u64>, b2: Seq<u64>, n: int, p: int)
        requires
            self.wf(),
            self.explore_in_range(n),
            self.is_branch(self.state_of(b1), self.state_of(b2), n, p),
            self.state_of(b1).placed < u64::MAX,
        ensures
            extends(self.state_of(b1), self.state_of(b2)),
    {
        let g1 = self.state_of(b1);
        let c = self.explore_cell(n);
        self.lemma_grid_lens(b1.subrange(self.spec_to_explore_size(), self.spec_block_size()));
        lemma_pair_index(self.explore_round(n), self.explore_table(n), self.spec_rounds(), self.spec_table_count());
        let w = with_cell_potential(g1, g1.empty, c, g1.potential_on_table[c].insert(p));
        assert(w.played_with == g1.played_with);
        assert(w.played_on_table_total == g1.played_on_table_total);
        assert(w.played_in_round == g1.played_in_round);
        assert(w.played_on_table == g1.played_on_table);
        assert(w.potential_on_table.len() == g1.potential_on_table.len());
        assert(grows(g1, w));
        self.lemma_grows_apply(w, self.explore_round(n), self.explore_table(n), p);
        lemma_grows_trans(g1, w, self.state_of(b2));
        lemma_grows_extends(g1, self.state_of(b2));
    }
    /// The round that to-explore number `n` stands for.
    pub open spec fn explore_round(&self, n: int) -> int {
        split_number(n as usize, self.spec_divisor() as u32).0 as int
    }

    /// The table that to-explore number `n` stands for.
    pub open spec fn explore_table(&self, n: int) -> int {
        split_number(n as usize, self.spec_divisor() as u32).1 as int
    }

    /// Whether to-explore number `n` stands for a table of a round of the schedule.
    pub open spec fn explore_in_range(&self, n: int) -> bool {
        &&& 0 <= n <= usize::MAX
        &&& self.explore_round(n) < self.spec_rounds()
        &&& self.explore_table(n) < self.spec_table_count()
    }

    /// The cell (`round * tables + table`) of to-explore number `n`.
    pub open spec fn explore_cell(&self, n: int) -> int {
        self.explore_round(n) * self.spec_table_count() + self.explore_table(n)
    }

    /// The size of the table of to-explore number `n`.
    pub open spec fn explore_size(&self, n: int) -> int {
        self.spec_tables()[self.explore_table(n)] as int
    }

    /// The table of `n` is full, and it admits no player beyond those placed.
    pub open spec fn is_settled(&self, g: Grid, n: int) -> bool {
        let c = self.explore_cell(n);
        &&& g.played_on_table[c].len() == self.explore_size(n)
        &&& g.potential_on_table[c].subset_of(g.played_on_table[c])
    }

    /// The table of `n` admits no player beyond those placed.
    pub open spec fn is_filled(&self, g: Grid, n: int) -> bool {
        candidates(g, self.explore_cell(n)).is_empty()
    }

    /// The table of `n` cannot be completed: it has more players than seats, or
    /// fewer and no player left that may sit there.
    pub open spec fn is_dead_end(&self, g: Grid, n: int) -> bool {
        let k = g.played_on_table[self.explore_cell(n)].len();
        ||| k > self.explore_size(n)
        ||| (k < self.explore_size(n) && self.is_filled(g, n))
    }

    /// `g1` and `g2` are the two sides of a branch on player `p` at the table of
    /// `n`, which is not full: in `g2` the player is placed there, in `g1` it is
    /// no longer a potential player there, and the two agree otherwise.
    pub open spec fn is_branch(&self, g1: Grid, g2: Grid, n: int, p: int) -> bool {
        &&& g1.played_on_table[self.explore_cell(n)].len() < self.explore_size(n)
        &&& self.is_branch_at(g1, g2, self.explore_round(n), self.explore_table(n), p)
    }

    /// Distinct to-explore numbers in range stand for distinct cells.
    proof fn lemma_explore_injective(&self, n1: int, n2: int)
        requires
            self.wf(),
            self.explore_in_range(n1),
            self.explore_in_range(n2),
            self.explore_cell(n1) == self.explore_cell(n2),
        ensures
            n1 == n2,
    {
        let t = self.spec_table_count();
        self.lemma_shift();
        let d = (self.spec_divisor() as u32) as usize;
        lemma_pair_index(self.explore_round(n1), self.explore_table(n1), self.spec_rounds(), t);
        lemma_pair_index(self.explore_round(n2), self.explore_table(n2), self.spec_rounds(), t);
        lemma_split_number(n1 as usize, d);
        lemma_split_number(n2 as usize, d);
    }

    /// The status of the table of `n` survives a change that keeps its cell.
    proof fn lemma_status_kept(&self, g: Grid, g2: Grid, c: int, n: int)
        requires
            self.others_kept(g, g2, c),
            0 <= self.explore_cell(n) < self.spec_rounds() * self.spec_table_count(),
            self.explore_cell(n) != c,
        ensures
            g2.played_on_table[self.explore_cell(n)] == g.played_on_table[self.explore_cell(n)],
            self.is_settled(g, n) ==> self.is_settled(g2, n),
            self.is_filled(g, n) ==> self.is_filled(g2, n),
    {
        let cn = self.explore_cell(n);
        assert(g2.potential_on_table[cn].subset_of(g.potential_on_table[cn]));
        if self.is_settled(g, n) {
            lemma_subset_trans(g2.potential_on_table[cn], g.potential_on_table[cn], g.played_on_table[cn]);
        }
        if self.is_filled(g, n) {
            assert forall|q: int| !#[trigger] candidates(g2, cn).contains(q) by {
                if candidates(g2, cn).contains(q) {
                    assert(candidates(g, cn).contains(q));
                }
            }
            assert(candidates(g2, cn) =~= Set::empty());
        }
    }
}

/// Copies the words of `src` over those of `dst`, which has as many.
fn copy_words(dst: &mut Vec<u64>, src: &Vec<u64>)
    requires
        old(dst)@.len() == src@.len(),
    ensures
        final(dst)@ == src@,
{
    let mut i: usize = 0;
    while i < src.len()
        invariant
            i <= src@.len(),
            dst@.len() == src@.len(),
            forall|j: int| 0 <= j < i ==> dst@[j] == src@[j],
        decreases src@.len() - i,
    {
        dst.set(i, src[i]);
        i = i + 1;
    }
    assert(dst@ =~= src@);
}

impl<'a> Scheduler<'a> {
    /// Whether `g1` and `g2` are the two sides of a branch on player `p` at
    /// `table` of `round`: in `g2` the player is placed there, in `g1` it is no
    /// longer a potential player there, and the two agree otherwise.
    pub open spec fn is_branch_at(&self, g1: Grid, g2: Grid, round: int, table: int, p: int) -> bool {
        let c = round * self.spec_table_count() + table;
        &&& 0 <= p < self.spec_player_count()
        &&& !g1.played_on_table[c].contains(p)
        &&& !g1.potential_on_table[c].contains(p)
        &&& g1.played_with[p].disjoint(g1.played_on_table[c])
        &&& g2 == self.apply_spec(
            with_cell_potential(g1, g1.empty, c, g1.potential_on_table[c].insert(p)),
            round,
            table,
            p,
        )
    }

    /// Drops `player` from the potential players of `table` in `round`.
    fn drop_potential(&self, buffer: &mut Schedule, round: Round, table: Table, player: usize)
        requires
            self.wf(),
            self.rest_wf(old(buffer).rest_spec()),
            round.value() < self.spec_rounds(),
            table.value() < self.spec_table_count(),
            player < self.spec_player_count(),
        ensures
            final(buffer).to_explore_spec() == old(buffer).to_explore_spec(),
            final(buffer).rest_spec().len() == old(buffer).rest_spec().len(),
            forall|j: int|
                self.spec_rest_len() <= j < old(buffer).rest_spec().len() ==> final(buffer).rest_spec()[j]
                    == old(buffer).rest_spec()[j],
            self.rest_wf(final(buffer).rest_spec()),
            ({
                let g = self.grid(old(buffer).rest_spec());
                let c = round.value() * self.spec_table_count() + table.value();
                self.grid(final(buffer).rest_spec()) == with_cell_potential(
                    g,
                    g.empty,
                    c,
                    g.potential_on_table[c].remove(player as int),
                )
            }),
    {
        let ghost s0 = buffer.rest@;
        let ghost g = self.grid(s0);
        let ghost tci = self.spec_table_count();
        let ghost c = round.value() * tci + table.value();
        let ghost wi = self.spec_words();
        proof {
            self.lemma_layout();
            lemma_pair_index(round.value() as int, table.value() as int, self.spec_rounds(), tci);
            assert(cell(wi, c) + wi <= cell(wi, self.spec_rounds() * tci));
            self.lemma_grid_lens(s0);
        }
        let w = self.player_bit_word_count;
        let cc = round.as_usize() * self.tables.len() + table.as_usize();
        let potential_index = self.offsets.potential_on_table_offset + w * cc;
        put_player_bit(&mut buffer.rest, potential_index, w, player, false);
        proof {
            let k = potential_index + player / 64;
            self.lemma_write_in(s0, buffer.rest@, 4, c, k, k + 1);
            let g2 = self.grid(buffer.rest@);
            assert(Self::family(g2, 0) == Self::family(g, 0));
            assert(Self::family(g2, 1) == Self::family(g, 1));
            assert(Self::family(g2, 2) == Self::family(g, 2));
            assert(Self::family(g2, 3) == Self::family(g, 3));
            assert(g2.potential_on_table[c] == g.potential_on_table[c].remove(player as int));
            assert(g2.potential_on_table =~= g.potential_on_table.update(c, g.potential_on_table[c].remove(player as int)));
            assert(g2 =~= with_cell_potential(g, g.empty, c, g.potential_on_table[c].remove(player as int)));
            assert forall|c2: int| 0 <= c2 < g2.potential_on_table.len() implies #[trigger] g2.potential_on_table[c2].subset_of(self.players()) by {
                assert(g.potential_on_table[c2].subset_of(self.players()));
            }
        }
    }
}

impl<'a> Scheduler<'a> {
    /// Branches on the first potential player of `table` in `round` that has
    /// played with none of the players placed there: `b2` becomes `b1` with that
    /// player placed, and `b1` drops the player from the table's potential
    /// players. Players met on the way that cannot sit there are dropped from
    /// the table's potential players in `b1`. Returns whether it branched;
    /// `b2` is left as it was when it did not.
    #[verifier::rlimit(80)]
    #[verifier::spinoff_prover]
    fn branch(&self, b1: &mut Schedule, b2: &mut Schedule, round: Round, table: Table) -> (r: bool)
        requires
            self.wf(),
            self.rest_wf(old(b1).rest_spec()),
            old(b1).rest_spec().len() == old(b2).rest_spec().len(),
            old(b1).to_explore_spec().data_spec().len() == old(b2).to_explore_spec().data_spec().len(),
            old(b1).rest_spec()[0] < u64::MAX,
            round.value() < self.spec_rounds(),
            table.value() < self.spec_table_count(),
        ensures
            final(b1).to_explore_spec() == old(b1).to_explore_spec(),
            final(b1).rest_spec().len() == old(b1).rest_spec().len(),
            forall|j: int|
                self.spec_rest_len() <= j < old(b1).rest_spec().len() ==> final(b1).rest_spec()[j]
                    == old(b1).rest_spec()[j],
            self.rest_wf(final(b1).rest_spec()),
            ({
                let g = self.grid(old(b1).rest_spec());
                let g1 = self.grid(final(b1).rest_spec());
                let c = round.value() * self.spec_table_count() + table.value();
                &&& g1 == with_cell_potential(g, g.empty, c, g1.potential_on_table[c])
                &&& g1.potential_on_table[c].subset_of(g.potential_on_table[c])
            }),
            !r ==> candidates(
                self.grid(final(b1).rest_spec()),
                round.value() * self.spec_table_count() + table.value(),
            ).is_empty(),
            !r ==> ({
                let g = self.grid(old(b1).rest_spec());
                let c = round.value() * self.spec_table_count() + table.value();
                &&& forall|q: int| #[trigger] candidates(g, c).contains(q) ==> !can_sit(g, c, q)
                &&& self.grid(final(b1).rest_spec()).potential_on_table[c] == g.potential_on_table[c].difference(
                    candidates(g, c),
                )
            }),
            !r ==> final(b2).rest_spec() == old(b2).rest_spec() && final(b2).to_explore_spec() == old(
                b2,
            ).to_explore_spec(),
            r ==> {
                &&& final(b2).to_explore_spec().data_spec() == final(b1).to_explore_spec().data_spec()
                &&& final(b2).to_explore_spec().divisor_spec() == old(b2).to_explore_spec().divisor_spec()
                &&& final(b2).rest_spec().len() == old(b2).rest_spec().len()
                &&& self.rest_wf(final(b2).rest_spec())
                &&& exists|p: int|
                    #[trigger] self.is_branch_at(
                        self.grid(final(b1).rest_spec()),
                        self.grid(final(b2).rest_spec()),
                        round.value() as int,
                        table.value() as int,
                        p,
                    ) && first_seatable(
                        self.grid(old(b1).rest_spec()),
                        round.value() * self.spec_table_count() + table.value(),
                        p,
                    ) && self.grid(final(b1).rest_spec()).potential_on_table[round.value() * self.spec_table_count()
                        + table.value()] == self.grid(old(b1).rest_spec()).potential_on_table[round.value()
                        * self.spec_table_count() + table.value()].difference(
                        candidates_upto(
                            self.grid(old(b1).rest_spec()),
                            round.value() * self.spec_table_count() + table.value(),
                            p,
                        ),
                    )
            },
    {
        let ghost g = self.grid(b1.rest@);
        let ghost s0 = b1.rest@;
        let ghost te0 = b1.to_explore;
        let ghost tci = self.spec_table_count();
        let ghost c = round.value() * tci + table.value();
        let ghost wi = self.spec_words();
        proof {
            self.lemma_layout();
            lemma_pair_index(round.value() as int, table.value() as int, self.spec_rounds(), tci);
            assert(cell(wi, c) + wi <= cell(wi, self.spec_rounds() * tci));
            self.lemma_grid_lens(s0);
            assert(g == with_cell_potential(g, g.empty, c, g.potential_on_table[c])) by {
                assert(g.potential_on_table =~= g.potential_on_table.update(c, g.potential_on_table[c]));
            }
        }
        let w = self.player_bit_word_count;
        let cc = round.as_usize() * self.tables.len() + table.as_usize();
        let potential_index = self.offsets.potential_on_table_offset + w * cc;
        let fixed_index = self.offsets.played_on_table_offset + w * cc;
        let mut chosen: Option<usize> = None;
        let mut byte: usize = 0;
        while byte < w && chosen.is_none()
            invariant
                self.wf(),
                w == wi,
                wi == self.spec_words(),
                tci == self.spec_table_count(),
                round.value() < self.spec_rounds(),
                table.value() < tci,
                cc == c,
                c == round.value() * tci + table.value(),
                0 <= c < self.spec_rounds() * tci,
                potential_index == self.spec_potential_off() + cell(wi, c),
                fixed_index == self.spec_fixed_off() + cell(wi, c),
                potential_index + wi <= self.spec_rest_len(),
                fixed_index + wi <= self.spec_potential_off(),
                g == self.grid(s0),
                g.placed < u64::MAX,
                b1.to_explore == te0,
                b1.rest@.len() == s0.len(),
                forall|j: int| self.spec_rest_len() <= j < s0.len() ==> b1.rest@[j] == s0[j],
                self.rest_wf(b1.rest@),
                ({
                    let g1 = self.grid(b1.rest@);
                    &&& g1 == with_cell_potential(g, g.empty, c, g1.potential_on_table[c])
                    &&& g1.potential_on_table[c].subset_of(g.potential_on_table[c])
                }),
                chosen matches Some(p) ==> {
                    &&& p < self.spec_player_count()
                    &&& candidates(self.grid(b1.rest@), c).contains(p as int)
                    &&& self.grid(b1.rest@).played_with[p as int].disjoint(self.grid(b1.rest@).played_on_table[c])
                },
                forall|q: int|
                    #[trigger] g.potential_on_table[c].contains(q) && !self.grid(b1.rest@).potential_on_table[c].contains(q)
                        ==> candidates(g, c).contains(q) && !can_sit(g, c, q),
                forall|q: int, q2: int|
                    #[trigger] g.potential_on_table[c].contains(q) && !self.grid(b1.rest@).potential_on_table[c].contains(q)
                        && #[trigger] candidates(self.grid(b1.rest@), c).contains(q2) ==> q < q2,
                chosen matches Some(p) ==> forall|q2: int| #[trigger] candidates(self.grid(b1.rest@), c).contains(q2) ==> q2 >= p,
                byte <= wi,
                chosen is Some ==> byte < wi,
                chosen is None ==> forall|q: int| #[trigger] candidates(self.grid(b1.rest@), c).contains(q) ==> q >= 64 * byte,
            decreases wi - byte + (if chosen is None { 1int } else { 0int }),
        {
            let fixed = b1.rest[fixed_index + byte];
            let potential = b1.rest[potential_index + byte] & !fixed;
            let mut temp = potential;
            proof {
                crate::bits::lemma_bit_ops();
                assert forall|i: int| 0 <= i < 64 implies (crate::bits::bit(temp, i)
                    <==> #[trigger] candidates(self.grid(b1.rest@), c).contains(64 * byte + i)) by {
                    crate::bits::lemma_region_word(b1.rest@, potential_index as int, wi, byte as int, i);
                    crate::bits::lemma_region_word(b1.rest@, fixed_index as int, wi, byte as int, i);
                }
            }
            while temp != 0 && chosen.is_none()
                invariant
                self.wf(),
                    w == wi,
                    wi == self.spec_words(),
                    tci == self.spec_table_count(),
                    round.value() < self.spec_rounds(),
                    table.value() < tci,
                    cc == c,
                    c == round.value() * tci + table.value(),
                    0 <= c < self.spec_rounds() * tci,
                    potential_index == self.spec_potential_off() + cell(wi, c),
                    fixed_index == self.spec_fixed_off() + cell(wi, c),
                    potential_index + wi <= self.spec_rest_len(),
                    fixed_index + wi <= self.spec_potential_off(),
                    g == self.grid(s0),
                    g.placed < u64::MAX,
                    b1.to_explore == te0,
                    b1.rest@.len() == s0.len(),
                    forall|j: int| self.spec_rest_len() <= j < s0.len() ==> b1.rest@[j] == s0[j],
                    self.rest_wf(b1.rest@),
                    ({
                        let g1 = self.grid(b1.rest@);
                        &&& g1 == with_cell_potential(g, g.empty, c, g1.potential_on_table[c])
                        &&& g1.potential_on_table[c].subset_of(g.potential_on_table[c])
                    }),
                    chosen matches Some(p) ==> {
                        &&& p < self.spec_player_count()
                        &&& candidates(self.grid(b1.rest@), c).contains(p as int)
                        &&& self.grid(b1.rest@).played_with[p as int].disjoint(self.grid(b1.rest@).played_on_table[c])
                    },
                    forall|q: int|
                        #[trigger] g.potential_on_table[c].contains(q) && !self.grid(b1.rest@).potential_on_table[c].contains(q)
                            ==> candidates(g, c).contains(q) && !can_sit(g, c, q),
                    forall|q: int, q2: int|
                        #[trigger] g.potential_on_table[c].contains(q) && !self.grid(b1.rest@).potential_on_table[c].contains(q)
                            && #[trigger] candidates(self.grid(b1.rest@), c).contains(q2) ==> q < q2,
                    chosen matches Some(p) ==> forall|q2: int| #[trigger] candidates(self.grid(b1.rest@), c).contains(q2) ==> q2 >= p,
                    byte < wi,
                    chosen is None ==> forall|q: int| #[trigger] candidates(self.grid(b1.rest@), c).contains(q) ==> q >= 64 * byte,
                    chosen is None ==> forall|i: int| 0 <= i < 64 ==> (crate::bits::bit(temp, i)
                        <==> #[trigger] candidates(self.grid(b1.rest@), c).contains(64 * byte + i)),
                decreases temp,
            {
                let ghost gb = self.grid(b1.rest@);
                proof {
                    crate::bits::lemma_trailing_zeros(temp);
                    crate::bits::lemma_bit_ops();
                }
                let tz = temp.trailing_zeros();
                let player = byte * 64 + tz as usize;
                let player_bit = 1u64 << (tz as u64);
                proof {
                    crate::bits::lemma_clear_bit_smaller(temp, tz as u64);
                    assert(crate::bits::bit(temp, tz as int));
                    assert(candidates(self.grid(b1.rest@), c).contains(64 * byte + tz as int));
                    assert(candidates(gb, c).contains(player as int));
                    assert(gb.potential_on_table[c].subset_of(self.players()));
                    assert(player < self.spec_player_count());
                    self.lemma_grid_lens(b1.rest@);
                    assert forall|q2: int| #[trigger] candidates(gb, c).contains(q2) implies q2 >= player by {
                        if q2 < player {
                            assert(q2 >= 64 * byte);
                            let i = q2 - 64 * byte;
                            assert(candidates(gb, c).contains(64 * byte + i));
                            assert(crate::bits::bit(temp, i));
                        }
                    }
                }
                let ghost temp0 = temp;
                temp = temp & !player_bit;
                if self.can_place_player_on_table(b1, round, table, player) {
                    chosen = Some(player);
                } else {
                    self.drop_potential(b1, round, table, player);
                    proof {
                        let g2 = self.grid(b1.rest@);
                        assert(g2.potential_on_table[c] == gb.potential_on_table[c].remove(player as int));
                        assert(g2.played_on_table[c] == gb.played_on_table[c]);
                        assert(candidates(g2, c) =~= candidates(gb, c).remove(player as int));
                        assert(g2.played_with == g.played_with);
                        assert(g2.played_on_table == g.played_on_table);
                        assert(candidates(gb, c).subset_of(candidates(g, c)));
                        assert(g2.potential_on_table =~= g.potential_on_table.update(c, g2.potential_on_table[c]));
                        assert(g2 =~= with_cell_potential(g, g.empty, c, g2.potential_on_table[c]));
                        lemma_subset_trans(g2.potential_on_table[c], gb.potential_on_table[c], g.potential_on_table[c]);
                        assert forall|i: int| 0 <= i < 64 implies (crate::bits::bit(temp, i)
                            <==> #[trigger] candidates(g2, c).contains(64 * byte + i)) by {
                            assert(crate::bits::bit(temp, i) == (crate::bits::bit(temp0, i) && i != tz));
                        }
                    }
                }
            }
            if chosen.is_none() {
                proof {
                    assert forall|q: int| #[trigger] candidates(self.grid(b1.rest@), c).contains(q) implies q >= 64 * (byte + 1) by {
                        if q < 64 * (byte + 1) {
                            let i = q - 64 * byte;
                            assert(candidates(self.grid(b1.rest@), c).contains(64 * byte + i));
                            crate::bits::lemma_bit_ops();
                        }
                    }
                }
                byte = byte + 1;
            }
        }
        match chosen {
            Some(player) => {
                proof {
                    assert(b1.rest@.len() == b2.rest@.len());
                }
                copy_words(&mut b2.rest, &b1.rest);
                b2.to_explore.copy_from(b1.to_explore.get_data());
                let ghost gmid = self.grid(b1.rest@);
                proof {
                    assert(self.grid(b2.rest@) == gmid);
                    assert(b2.rest@[0] == gmid.placed);
                    assert(gmid.placed == g.placed);
                }
                self.drop_potential(b1, round, table, player);
                self.apply_player(b2, round, table, player);
                proof {
                    let g1 = self.grid(b1.rest@);
                    let g2 = self.grid(b2.rest@);
                    assert(g1.potential_on_table[c] == gmid.potential_on_table[c].remove(player as int));
                    assert(g1.potential_on_table =~= g.potential_on_table.update(c, g1.potential_on_table[c]));
                    assert(g1 =~= with_cell_potential(g, g.empty, c, g1.potential_on_table[c]));
                    lemma_subset_trans(g1.potential_on_table[c], gmid.potential_on_table[c], g.potential_on_table[c]);
                    let back = with_cell_potential(g1, g1.empty, c, g1.potential_on_table[c].insert(player as int));
                    assert(g1.potential_on_table[c].insert(player as int) =~= gmid.potential_on_table[c]);
                    assert(back.potential_on_table =~= gmid.potential_on_table);
                    assert(back =~= gmid);
                    assert(self.is_branch_at(g1, g2, round.value() as int, table.value() as int, player as int));
                    let pi = player as int;
                    assert(gmid.played_on_table == g.played_on_table);
                    assert(gmid.played_with == g.played_with);
                    assert forall|q: int| #[trigger] candidates(g, c).contains(q) && q < pi implies !can_sit(g, c, q) by {
                        if gmid.potential_on_table[c].contains(q) {
                            assert(candidates(gmid, c).contains(q));
                        }
                    }
                    assert(first_seatable(g, c, pi));
                    assert forall|x: int| #[trigger] g1.potential_on_table[c].contains(x) == g.potential_on_table[c].difference(
                        candidates_upto(g, c, pi),
                    ).contains(x) by {
                        if g1.potential_on_table[c].contains(x) {
                            if candidates(g, c).contains(x) && x < pi {
                                assert(candidates(gmid, c).contains(x));
                            }
                        }
                        if g.potential_on_table[c].contains(x) && !candidates_upto(g, c, pi).contains(x) {
                            if !gmid.potential_on_table[c].contains(x) {
                                assert(candidates(gmid, c).contains(pi));
                            }
                        }
                    }
                    assert(g1.potential_on_table[c] =~= g.potential_on_table[c].difference(candidates_upto(g, c, pi)));
                }
                true
            },
            None => {
                proof {
                    let g1 = self.grid(b1.rest@);
                    assert forall|q: int| !#[trigger] candidates(g1, c).contains(q) by {
                        if candidates(g1, c).contains(q) {
                            assert(g1.potential_on_table[c].subset_of(self.players()));
                            assert(self.players().contains(q));
                        }
                    }
                    assert(candidates(g1, c) =~= Set::empty());
                    assert(g1.played_on_table == g.played_on_table);
                    assert(g1.played_with == g.played_with);
                    assert forall|q: int| #[trigger] candidates(g, c).contains(q) implies !can_sit(g, c, q) by {
                        if g1.potential_on_table[c].contains(q) {
                            assert(candidates(g1, c).contains(q));
                        }
                    }
                    assert forall|x: int| #[trigger] g1.potential_on_table[c].contains(x) == g.potential_on_table[c].difference(
                        candidates(g, c),
                    ).contains(x) by {
                        if g1.potential_on_table[c].contains(x) && candidates(g, c).contains(x) {
                            assert(candidates(g1, c).contains(x));
                        }
                    }
                    assert(g1.potential_on_table[c] =~= g.potential_on_table[c].difference(candidates(g, c)));
                }
                false
            },
        }
    }
}

/// A table's size is at most the sum of the sizes.
proof fn lemma_table_le_sum(s: Seq<usize>, i: int)
    requires
        0 <= i < s.len(),
    ensures
        s[i] <= seq_sum(s),
{
    lemma_seq_sum_step(s, i);
    lemma_seq_sum_prefix(s, i + 1);
    lemma_seq_sum_prefix(s, i);
}

/// There are at most as many to-explore numbers as bits of the words.
proof fn lemma_numbers_len(data: Seq<u64>)
    ensures
        ToExplore::<u64>::numbers_of(data).finite(),
        ToExplore::<u64>::numbers_of(data).len() <= data.len() * 64,
{
    let hi: int = (data.len() * 64) as int;
    vstd::set_lib::lemma_int_range(0, hi);
    assert(ToExplore::<u64>::numbers_of(data).subset_of(vstd::set_lib::set_int_range(0, hi)));
    vstd::set_lib::lemma_len_subset(ToExplore::<u64>::numbers_of(data), vstd::set_lib::set_int_range(0, hi));
}

impl<'a> Scheduler<'a> {
    /// Visits to-explore number `n` in the walk of a step. The walk's state is
    /// the grid, the to-explore numbers, the table kept to branch on (its count
    /// of players and its number), and whether a table has more players than
    /// seats. A number that stands for no table is dropped; a table with fewer
    /// players than seats is filled when it has as many potential players as
    /// seats, and is otherwise kept to branch on when it has fewer players than
    /// the table kept so far; a full table is closed and dropped; a table with
    /// more players than seats ends the walk.
    pub open spec fn walk_visit(&self, st: (Grid, Set<int>, Option<(int, int)>, bool), n: int) -> (
        Grid,
        Set<int>,
        Option<(int, int)>,
        bool,
    ) {
        let (g, nums, low, dead) = st;
        if !self.explore_in_range(n) {
            (g, nums.remove(n), low, dead)
        } else {
            let c = self.explore_cell(n);
            let fixed = g.played_on_table[c].len() as int;
            let size = self.explore_size(n);
            if fixed < size {
                if g.potential_on_table[c].len() == size {
                    (
                        self.fill_pass(g, self.explore_round(n), self.explore_table(n), (64 * self.spec_words()) as nat),
                        nums,
                        low,
                        dead,
                    )
                } else if low is None || fixed < low->Some_0.0 {
                    (g, nums, Some((fixed, n)), dead)
                } else {
                    st
                }
            } else if fixed == size {
                (with_cell_potential(g, (g.empty - 1) as u64, c, g.played_on_table[c]), nums.remove(n), low, dead)
            } else {
                (g, nums, low, true)
            }
        }
    }

    /// The walk of a step over the numbers of `nums` below `k`, smallest first,
    /// from the state `st`; it stops at a table with more players than seats.
    pub open spec fn walk_upto(&self, st: (Grid, Set<int>, Option<(int, int)>, bool), nums: Set<int>, k: nat) -> (
        Grid,
        Set<int>,
        Option<(int, int)>,
        bool,
    )
        decreases k,
    {
        if k == 0 {
            st
        } else {
            let prev = self.walk_upto(st, nums, (k - 1) as nat);
            if nums.contains(k - 1) && !prev.3 {
                self.walk_visit(prev, k - 1)
            } else {
                prev
            }
        }
    }

    /// The walk that a step makes on the grid `g` with to-explore numbers
    /// `nums`, after its hidden-singles passes.
    pub open spec fn step_walk(&self, g: Grid, nums: Set<int>) -> (Grid, Set<int>, Option<(int, int)>, bool) {
        let gs = self.tables_pass(
            self.rounds_pass(g, (self.spec_rounds() * self.spec_player_count()) as nat),
            (self.spec_table_count() * self.spec_player_count()) as nat,
        );
        self.walk_upto((gs, nums, None, false), nums, (64 * self.spec_to_explore_size()) as nat)
    }

    /// Numbers of `nums` in `[a, b)` that are not there leave the walk where it
    /// was.
    proof fn lemma_walk_skip(&self, st: (Grid, Set<int>, Option<(int, int)>, bool), nums: Set<int>, a: nat, b: nat)
        requires
            a <= b,
            forall|j: int| a <= j < b ==> !#[trigger] nums.contains(j) || self.walk_upto(st, nums, a).3,
        ensures
            self.walk_upto(st, nums, b) == self.walk_upto(st, nums, a),
        decreases b - a,
    {
        if a < b {
            self.lemma_walk_skip(st, nums, a, (b - 1) as nat);
        }
    }

    /// Whether `r`, `g1` and `g2` are what branching on the table of `n` in
    /// the state `g` gives: with a first candidate `p` that may sit there, `g1`
    /// drops the candidates up to `p` from the table's potential players and
    /// `g2` is `g1` with `p` seated there (`Some(false)`); with none, `g1` drops
    /// every candidate and the step fails (`None`).
    pub open spec fn branch_outcome(&self, g: Grid, n: int, r: Option<bool>, g1: Grid, g2: Grid) -> bool {
        let c = self.explore_cell(n);
        if exists|p: int| first_seatable(g, c, p) {
            let p = choose|p: int| first_seatable(g, c, p);
            &&& r == Some(false)
            &&& g1 == with_cell_potential(g, g.empty, c, g.potential_on_table[c].difference(candidates_upto(g, c, p)))
            &&& g2 == self.apply_spec(
                with_cell_potential(g1, g1.empty, c, g1.potential_on_table[c].insert(p)),
                self.explore_round(n),
                self.explore_table(n),
                p,
            )
        } else {
            &&& r is None
            &&& g1 == with_cell_potential(g, g.empty, c, g.potential_on_table[c].difference(candidates(g, c)))
        }
    }

    /// Whether `r`, `g1`, `nums1` and `g2` are what a step gives on the state
    /// `g` with to-explore numbers `nums`: after the walk, `None` when a table
    /// has more players than seats, `Some(true)` when no table was kept to
    /// branch on, and otherwise the branch on the table kept.
    pub open spec fn step_outcome(&self, g: Grid, nums: Set<int>, r: Option<bool>, g1: Grid, nums1: Set<int>, g2: Grid) -> bool {
        let w = self.step_walk(g, nums);
        &&& nums1 == w.1
        &&& w.3 ==> r is None && g1 == w.0
        &&& !w.3 && w.2 is None ==> r == Some(true) && g1 == w.0
        &&& !w.3 && w.2 is Some ==> self.branch_outcome(w.0, w.2->Some_0.1, r, g1, g2)
    }

    /// What a step gives on the state `g` with to-explore numbers `nums`: its
    /// result, the state and to-explore numbers of the first search buffer,
    /// and, after a branch, the state of the second.
    pub open spec fn step_result(&self, g: Grid, nums: Set<int>) -> (Option<bool>, Grid, Set<int>, Grid) {
        let w = self.step_walk(g, nums);
        if w.3 {
            (None, w.0, w.1, w.0)
        } else if w.2 is None {
            (Some(true), w.0, w.1, w.0)
        } else {
            let n = w.2->Some_0.1;
            let c = self.explore_cell(n);
            let h = w.0;
            if exists|p: int| first_seatable(h, c, p) {
                let p = choose|p: int| first_seatable(h, c, p);
                let g1 = with_cell_potential(h, h.empty, c, h.potential_on_table[c].difference(candidates_upto(h, c, p)));
                (
                    Some(false),
                    g1,
                    w.1,
                    self.apply_spec(
                        with_cell_potential(g1, g1.empty, c, g1.potential_on_table[c].insert(p)),
                        self.explore_round(n),
                        self.explore_table(n),
                        p,
                    ),
                )
            } else {
                (None, with_cell_potential(h, h.empty, c, h.potential_on_table[c].difference(candidates(h, c))), w.1, w.0)
            }
        }
    }

    /// The outcome of a step is its result.
    pub proof fn lemma_step_result(&self, g: Grid, nums: Set<int>, r: Option<bool>, g1: Grid, nums1: Set<int>, g2: Grid)
        requires
            self.step_outcome(g, nums, r, g1, nums1, g2),
        ensures
            r == self.step_result(g, nums).0,
            g1 == self.step_result(g, nums).1,
            nums1 == self.step_result(g, nums).2,
            r == Some(false) ==> g2 == self.step_result(g, nums).3,
    {
    }

    /// The number of placements that one step may make.
    pub open spec fn step_budget(&self) -> int {
        self.singles_budget() + 64 * self.spec_words() * (64 * self.spec_to_explore_size()) + 1
    }

    /// One step of the search on the schedules `b1` and `b2`: seats the hidden
    /// singles of `b1`, then walks its tables to explore. A table that stands
    /// for no table of the schedule is dropped; a full table is closed and
    /// dropped; a table with as many potential players as seats is filled; of
    /// the others, the one with fewest players is kept to branch on. A table
    /// with more players than seats ends the step with `None`. With a table to
    /// branch on, `b2` becomes the branch that seats a player there and `b1` the
    /// branch that does not (`Some(false)`), or, when no player may sit there,
    /// the step ends with `None`. With none, the step ends with `Some(true)`.
    #[verifier::rlimit(100)]
    #[verifier::spinoff_prover]
    fn step_inner(&self, b1: &mut Schedule, b2: &mut Schedule) -> (r: Option<bool>)
        requires
            self.wf(),
            self.counts_fit(),
            self.spec_to_explore_size() > 0,
            old(b1).rest_spec().len() == self.spec_rest_len(),
            old(b2).rest_spec().len() == self.spec_rest_len(),
            old(b1).to_explore_spec().data_spec().len() == self.spec_to_explore_size(),
            old(b2).to_explore_spec().data_spec().len() == self.spec_to_explore_size(),
            old(b1).to_explore_spec().divisor_spec() == self.spec_divisor(),
            old(b1).to_explore_spec().wf(),
            self.rest_wf(old(b1).rest_spec()),
            self.grid(old(b1).rest_spec()).empty >= old(b1).to_explore_spec().numbers().len(),
            old(b1).rest_spec()[0] + self.step_budget() <= u64::MAX,
        ensures
            final(b1).to_explore_spec().data_spec().len() == self.spec_to_explore_size(),
            final(b1).to_explore_spec().divisor_spec() == self.spec_divisor(),
            final(b1).rest_spec().len() == self.spec_rest_len(),
            self.rest_wf(final(b1).rest_spec()),
            final(b1).to_explore_spec().numbers().subset_of(old(b1).to_explore_spec().numbers()),
            forall|n: int|
                old(b1).to_explore_spec().numbers().contains(n) && !final(b1).to_explore_spec().numbers().contains(n)
                    ==> !self.explore_in_range(n) || self.is_settled(self.grid(final(b1).rest_spec()), n),
            extends(self.grid(old(b1).rest_spec()), self.grid(final(b1).rest_spec())),
            extends(
                self.tables_pass(
                    self.rounds_pass(
                        self.grid(old(b1).rest_spec()),
                        (self.spec_rounds() * self.spec_player_count()) as nat,
                    ),
                    (self.spec_table_count() * self.spec_player_count()) as nat,
                ),
                self.grid(final(b1).rest_spec()),
            ),
            self.grid(final(b1).rest_spec()).placed < u64::MAX,
            self.grid(final(b1).rest_spec()).empty >= final(b1).to_explore_spec().numbers().len(),
            r != Some(false) ==> final(b2).rest_spec() == old(b2).rest_spec() && final(b2).to_explore_spec()
                == old(b2).to_explore_spec(),
            r == Some(true) ==> forall|n: int|
                final(b1).to_explore_spec().numbers().contains(n) ==> self.explore_in_range(n) && self.is_filled(
                    self.grid(final(b1).rest_spec()),
                    n,
                ),
            r is None ==> exists|n: int|
                final(b1).to_explore_spec().numbers().contains(n) && self.explore_in_range(n) && self.is_dead_end(
                    self.grid(final(b1).rest_spec()),
                    n,
                ),
            self.step_outcome(
                self.grid(old(b1).rest_spec()),
                old(b1).to_explore_spec().numbers(),
                r,
                self.grid(final(b1).rest_spec()),
                final(b1).to_explore_spec().numbers(),
                self.grid(final(b2).rest_spec()),
            ),
            r == Some(false) ==> {
                &&& final(b2).to_explore_spec().data_spec() == final(b1).to_explore_spec().data_spec()
                &&& final(b2).to_explore_spec().divisor_spec() == old(b2).to_explore_spec().divisor_spec()
                &&& final(b2).rest_spec().len() == self.spec_rest_len()
                &&& self.rest_wf(final(b2).rest_spec())
                &&& exists|n: int, p: int, m: Grid|
                    #![trigger first_seatable(m, self.explore_cell(n), p)]
                    final(b1).to_explore_spec().numbers().contains(n) && self.explore_in_range(n)
                        && self.is_branch(self.grid(final(b1).rest_spec()), self.grid(final(b2).rest_spec()), n, p)
                        && self.chosen_branch(m, self.grid(final(b1).rest_spec()), n, p)
                        && self.fewest_first(self.grid(final(b1).rest_spec()), final(b1).to_explore_spec().numbers(), n)
            },
    {
        let ghost g0 = self.grid(b1.rest@);
        let ghost n0 = b1.to_explore.numbers();
        let ghost b2_0 = *b2;
        let ghost d = self.spec_divisor();
        let ghost wi = self.spec_words();
        proof {
            self.lemma_layout();
            lemma_numbers_len(b1.to_explore.data@);
            assert(64 * wi * n0.len() <= 64 * wi * (64 * self.spec_to_explore_size())) by (nonlinear_arith)
                requires n0.len() <= 64 * self.spec_to_explore_size(), wi >= 0;
            assert(64 * wi * n0.len() >= 0) by (nonlinear_arith) requires wi >= 0;
            assert(self.singles_budget() >= 0) by (nonlinear_arith)
                requires wi >= 0, self.spec_rounds() >= 0, self.spec_table_count() >= 0;
        }
        self.find_hidden_singles(b1);
        let ghost gs = self.grid(b1.rest@);
        proof {
            lemma_grows_extends(g0, gs);
            assert(extends(gs, gs));
            assert(b1.rest@[0] == gs.placed);
        }
        let te = b1.extract_to_explore();
        let mut it = te.iter_mut();
        let mut lowest: Option<(u32, Round, Table)> = None;
        let ghost mut low_n: int = 0;
        let mut finished = false;
        let mut dead = false;
        let ghost mut dead_n: int = 0;
        let ghost st0 = (gs, n0, None::<(int, int)>, false);
        let ghost mut seen: int = 0;
        proof {
            assert(it.pending() =~= Set::new(|x: int| n0.contains(x) && x >= seen));
        }
        while !finished && !dead
            invariant
                0 <= seen,
                it.pending() == Set::new(|x: int| n0.contains(x) && x >= seen),
                (self.grid(b1.rest@), it.to_explore_spec().numbers(), low_of(lowest, low_n), dead) == self.walk_upto(
                    st0,
                    n0,
                    seen as nat,
                ),
                forall|x: int| n0.contains(x) ==> 0 <= x < 64 * self.spec_to_explore_size(),
                seen <= 64 * self.spec_to_explore_size(),
                self.wf(),
                self.counts_fit(),
                wi == self.spec_words(),
                d == self.spec_divisor(),
                it.wf(),
                it.to_explore_spec().divisor_spec() == d,
                it.to_explore_spec().data_spec().len() == self.spec_to_explore_size(),
                n0.finite(),
                it.pending().subset_of(it.to_explore_spec().numbers()),
                it.to_explore_spec().numbers().subset_of(n0),
                b1.rest@.len() == self.spec_rest_len(),
                self.rest_wf(b1.rest@),
                *b2 == b2_0,
                extends(g0, self.grid(b1.rest@)),
                extends(gs, self.grid(b1.rest@)),
                self.grid(b1.rest@).empty >= it.to_explore_spec().numbers().len(),
                self.grid(b1.rest@).placed + 64 * wi * it.pending().len() <= gs.placed + 64 * wi * n0.len(),
                gs.placed + 64 * wi * n0.len() + 1 <= u64::MAX,
                forall|n: int|
                    n0.contains(n) && !it.to_explore_spec().numbers().contains(n) ==> #[trigger] self.removed_ok(
                        self.grid(b1.rest@),
                        n,
                    ),
                !dead ==> forall|n: int|
                    it.to_explore_spec().numbers().contains(n) && !it.pending().contains(n) ==> #[trigger] self.visited_ok(
                        self.grid(b1.rest@),
                        n,
                    ),
                lowest is None && !dead ==> forall|n: int|
                    it.to_explore_spec().numbers().contains(n) && !it.pending().contains(n) ==> #[trigger] self.is_filled(
                        self.grid(b1.rest@),
                        n,
                    ),
                lowest matches Some((k, ro, ta)) ==> {
                    &&& it.to_explore_spec().numbers().contains(low_n)
                    &&& !it.pending().contains(low_n)
                    &&& self.explore_in_range(low_n)
                    &&& self.explore_round(low_n) == ro.value()
                    &&& self.explore_table(low_n) == ta.value()
                    &&& self.grid(b1.rest@).played_on_table[self.explore_cell(low_n)].len() == k
                    &&& k < self.explore_size(low_n)
                },
                finished ==> it.pending().is_empty(),
                forall|a: int, b: int|
                    #![trigger it.to_explore_spec().numbers().contains(a), it.pending().contains(b)]
                    it.to_explore_spec().numbers().contains(a) && !it.pending().contains(a) && it.pending().contains(b)
                        ==> a < b,
                lowest is Some && !dead ==> self.fewest_first(
                    self.grid(b1.rest@),
                    it.to_explore_spec().numbers().difference(it.pending()),
                    low_n,
                ),
                dead ==> {
                    &&& it.to_explore_spec().numbers().contains(dead_n)
                    &&& self.explore_in_range(dead_n)
                    &&& self.is_dead_end(self.grid(b1.rest@), dead_n)
                },
            decreases it.pending().len() + (if finished || dead { 0int } else { 1int }),
        {
            let ghost pend = it.pending();
            let ghost old_low = low_n;
            let ghost old_lowest = lowest;
            let ghost nums = it.to_explore_spec().numbers();
            let ghost g = self.grid(b1.rest@);
            let ghost cur = (g, nums, low_of(lowest, low_n), dead);
            proof {
                vstd::set_lib::lemma_len_subset(nums, n0);
                vstd::set_lib::lemma_len_subset(pend, nums);
            }
            let next = it.next();
            match next {
                None => {
                    finished = true;
                },
                Some((rn, tn)) => {
                    let ghost n = min_of(pend);
                    proof {
                        assert(pend.contains(n));
                        assert(it.pending() == pend.remove(n));
                        assert(it.pending().len() == pend.len() - 1);
                        assert(nums.contains(n));
                        lemma_split_number(n as usize, (d as u32) as usize);
                        assert(explore_number(rn, tn, d as u32) == n);
                        assert(self.explore_round(n) == rn);
                        assert(self.explore_table(n) == tn);
                        assert(n < self.spec_to_explore_size() * 64);
                        assert(64 * wi * pend.len() == 64 * wi * it.pending().len() + 64 * wi) by (nonlinear_arith)
                            requires pend.len() == it.pending().len() + 1;
                        assert(64 * wi * it.pending().len() >= 0) by (nonlinear_arith) requires wi >= 0;
                        assert(64 * wi >= 0) by (nonlinear_arith) requires wi >= 0;
                        assert forall|j: int| seen <= j < n implies !#[trigger] n0.contains(j) || self.walk_upto(
                            st0,
                            n0,
                            seen as nat,
                        ).3 by {
                            if n0.contains(j) {
                                assert(pend.contains(j));
                            }
                        }
                        self.lemma_walk_skip(st0, n0, seen as nat, n as nat);
                        assert(self.walk_upto(st0, n0, (n + 1) as nat) == self.walk_visit(cur, n));
                        assert(it.pending() =~= Set::new(|x: int| n0.contains(x) && x >= n + 1));
                    }
                    let rr = self.round_range.convert_usize(rn);
                    let tt = self.table_range.convert_usize(tn);
                    if rr.is_none() || tt.is_none() {
                        it.remove(rn, tn);
                        proof {
                            assert(it.to_explore_spec().numbers() == nums.remove(n));
                            assert(it.pending() == pend.remove(n));
                            assert(!self.explore_in_range(n));
                            self.lemma_removed_out(g, n);
                            assert forall|m: int|
                                it.to_explore_spec().numbers().contains(m) && !it.pending().contains(m) implies #[trigger] self.visited_ok(g, m) by {
                                assert(nums.contains(m) && !pend.contains(m));
                            }
                            assert forall|m: int|
                                n0.contains(m) && !it.to_explore_spec().numbers().contains(m) implies #[trigger] self.removed_ok(g, m) by {
                                if m != n {
                                    assert(!nums.contains(m));
                                }
                            }
                            if lowest is None {
                                assert forall|m: int|
                                    it.to_explore_spec().numbers().contains(m) && !it.pending().contains(m) implies #[trigger] self.is_filled(g, m) by {
                                    assert(nums.contains(m) && !pend.contains(m));
                                }
                            } else {
                                let vis2 = it.to_explore_spec().numbers().difference(it.pending());
                                assert forall|k: int|
                                    #[trigger] vis2.contains(k) && self.explore_in_range(k) && k != low_n && (g.played_on_table[self.explore_cell(
                                        k,
                                    )].len() < g.played_on_table[self.explore_cell(low_n)].len() || (g.played_on_table[self.explore_cell(k)].len()
                                        == g.played_on_table[self.explore_cell(low_n)].len() && k < low_n)) implies self.is_filled(g, k) by {
                                    assert(nums.difference(pend).contains(k));
                                }
                            }
                        }
                    } else {
                        let round = rr.unwrap();
                        let table = tt.unwrap();
                        let ghost c = self.explore_cell(n);
                        proof {
                            assert(self.explore_in_range(n));
                            self.lemma_layout();
                            lemma_pair_index(rn as int, tn as int, self.spec_rounds(), self.spec_table_count());
                            lemma_table_le_sum(self.spec_tables(), tn as int);
                            assert(c == round.value() * self.spec_table_count() + table.value());
                            assert(self.spec_tables()[tn as int] <= u32::MAX);
                        }
                        let table_size = self.tables[table.as_usize()] as u32;
                        let fixed = self.get_fixed_count(b1, round, table);
                        if fixed < table_size {
                            let pot = self.get_potential_count(b1, round, table);
                            if pot == table_size {
                                proof {
                                    assert(b1.rest@[0] == g.placed);
                                }
                                self.fill_table(b1, round, table);
                                proof {
                                    let g2 = self.grid(b1.rest@);
                                    lemma_grows_extends(g, g2);
                                    lemma_extends_trans(g0, g, g2);
                                    lemma_extends_trans(gs, g, g2);
                                    assert(self.is_filled(g2, n));
                                    self.lemma_visited_filled(g2, n);
                                    assert forall|m: int|
                                        n0.contains(m) && !it.to_explore_spec().numbers().contains(m) implies #[trigger] self.removed_ok(g2, m) by {
                                        assert(self.removed_ok(g, m));
                                        self.lemma_kept_status(g, g2, n, m);
                                    }
                                    assert forall|m: int|
                                        it.to_explore_spec().numbers().contains(m) && !it.pending().contains(m) implies #[trigger] self.visited_ok(g2, m) by {
                                        if m != n {
                                            assert(!pend.contains(m));
                                            assert(self.visited_ok(g, m));
                                            self.lemma_kept_status(g, g2, n, m);
                                        }
                                    }
                                    if lowest is None {
                                        assert forall|m: int|
                                            it.to_explore_spec().numbers().contains(m) && !it.pending().contains(m) implies #[trigger] self.is_filled(g2, m) by {
                                            if m != n {
                                                assert(!pend.contains(m));
                                                assert(self.is_filled(g, m));
                                                assert(self.visited_ok(g, m));
                                                self.lemma_kept_status(g, g2, n, m);
                                            }
                                        }
                                    } else {
                                        assert(!pend.contains(low_n));
                                        self.lemma_kept_status(g, g2, n, low_n);
                                        assert(nums.difference(pend).contains(low_n));
                                        self.lemma_fewest_kept(g, g2, n, nums.difference(pend),
                                            it.to_explore_spec().numbers().difference(it.pending()), low_n);
                                    }
                                }
                            } else {
                                let replace = match lowest {
                                    None => true,
                                    Some((k, _, _)) => fixed < k,
                                };
                                if replace {
                                    lowest = Some((fixed, round, table));
                                    proof {
                                        low_n = n;
                                    }
                                }
                                proof {
                                    assert(g.played_on_table[c].len() == fixed);
                                    assert(fixed < self.explore_size(n));
                                    self.lemma_visited_short(g, n);
                                    assert forall|m: int|
                                        it.to_explore_spec().numbers().contains(m) && !it.pending().contains(m) implies #[trigger] self.visited_ok(g, m) by {
                                        if m != n {
                                            assert(!pend.contains(m));
                                        }
                                    }
                                    let vis = it.to_explore_spec().numbers().difference(it.pending());
                                    assert forall|k: int|
                                        #[trigger] vis.contains(k) && self.explore_in_range(k) && k != low_n && (
                                            g.played_on_table[self.explore_cell(k)].len() < g.played_on_table[self.explore_cell(
                                                low_n,
                                            )].len() || (g.played_on_table[self.explore_cell(k)].len()
                                                == g.played_on_table[self.explore_cell(low_n)].len() && k < low_n)) implies self.is_filled(g, k) by {
                                        if k != n {
                                            assert(nums.contains(k) && !pend.contains(k));
                                            assert(nums.difference(pend).contains(k));
                                            if old_lowest is Some && k != old_low {
                                                assert(nums.difference(pend).contains(old_low));
                                            }
                                        } else {
                                            assert(nums.contains(old_low) && !pend.contains(old_low) && pend.contains(n));
                                        }
                                    }
                                    assert(self.fewest_first(g, vis, low_n));
                                }
                            }
                        } else if fixed == table_size {
                            it.remove(rn, tn);
                            proof {
                                assert(it.to_explore_spec().numbers() == nums.remove(n));
                                assert(nums.len() >= 1) by {
                                    vstd::set_lib::lemma_len_subset(nums.remove(n), nums);
                                }
                                vstd::set_lib::lemma_len_subset(nums, n0);
                            }
                            self.settle_table(b1, round, table);
                            proof {
                                let g2 = self.grid(b1.rest@);
                                assert(g2 == with_cell_potential(g, (g.empty - 1) as u64, c, g.played_on_table[c]));
                                assert(self.others_kept(g, g2, c));
                                assert(extends(g, g2));
                                lemma_extends_trans(g0, g, g2);
                                lemma_extends_trans(gs, g, g2);
                                assert(self.is_settled(g2, n));
                                self.lemma_removed_settled(g2, n);
                                assert forall|m: int|
                                    n0.contains(m) && !it.to_explore_spec().numbers().contains(m) implies #[trigger] self.removed_ok(g2, m) by {
                                    if m != n {
                                        assert(!nums.contains(m));
                                        assert(self.removed_ok(g, m));
                                        self.lemma_kept_status(g, g2, n, m);
                                    }
                                }
                                assert forall|m: int|
                                    it.to_explore_spec().numbers().contains(m) && !it.pending().contains(m) implies #[trigger] self.visited_ok(g2, m) by {
                                    assert(nums.contains(m) && !pend.contains(m));
                                    assert(self.visited_ok(g, m));
                                    self.lemma_kept_status(g, g2, n, m);
                                }
                                if lowest is None {
                                    assert forall|m: int|
                                        it.to_explore_spec().numbers().contains(m) && !it.pending().contains(m) implies #[trigger] self.is_filled(g2, m) by {
                                        assert(nums.contains(m) && !pend.contains(m));
                                        assert(self.is_filled(g, m));
                                        assert(self.visited_ok(g, m));
                                        self.lemma_kept_status(g, g2, n, m);
                                    }
                                } else {
                                    self.lemma_kept_status(g, g2, n, low_n);
                                    assert(nums.difference(pend).contains(low_n));
                                    self.lemma_fewest_kept(g, g2, n, nums.difference(pend),
                                        it.to_explore_spec().numbers().difference(it.pending()), low_n);
                                }
                            }
                        } else {
                            dead = true;
                            proof {
                                dead_n = n;
                                assert(g.played_on_table[c].len() == fixed);
                                assert(self.is_dead_end(g, n));
                            }
                        }
                    }
                    proof {
                        assert((self.grid(b1.rest@), it.to_explore_spec().numbers(), low_of(lowest, low_n), dead)
                            == self.walk_visit(cur, n));
                        seen = n + 1;
                    }
                },
            }
        }
        proof {
            let nn = (64 * self.spec_to_explore_size()) as nat;
            assert forall|j: int| seen <= j < nn implies !#[trigger] n0.contains(j) || self.walk_upto(
                st0,
                n0,
                seen as nat,
            ).3 by {
                if n0.contains(j) && !dead {
                    assert(it.pending().contains(j));
                }
            }
            self.lemma_walk_skip(st0, n0, seen as nat, nn);
        }
        let ghost vis_end = it.to_explore_spec().numbers().difference(it.pending());
        proof {
            if !dead {
                assert(it.pending().is_empty());
                assert(vis_end =~= it.to_explore_spec().numbers());
            }
        }
        b1.import_to_explore(it.into_to_explore());
        if dead {
            proof {
                let g = self.grid(b1.rest@);
                assert forall|n: int| n0.contains(n) && !b1.to_explore.numbers().contains(n) implies !self.explore_in_range(n) || self.is_settled(g, n) by {
                    assert(self.removed_ok(g, n));
                    self.lemma_removed_means(g, n);
                }
            }
            return None;
        }
        match lowest {
            None => {
                proof {
                    let g = self.grid(b1.rest@);
                    assert forall|n: int| b1.to_explore.numbers().contains(n) implies self.explore_in_range(n) && self.is_filled(g, n) by {
                        assert(self.visited_ok(g, n));
                        assert(self.is_filled(g, n));
                        self.lemma_visited_in_range(g, n);
                    }
                    assert forall|n: int| n0.contains(n) && !b1.to_explore.numbers().contains(n) implies !self.explore_in_range(n) || self.is_settled(g, n) by {
                        assert(self.removed_ok(g, n));
                        self.lemma_removed_means(g, n);
                    }
                }
                Some(true)
            },
            Some((_, round, table)) => {
                let ghost g = self.grid(b1.rest@);
                let ghost n1 = b1.to_explore.numbers();
                let ghost c = self.explore_cell(low_n);
                let ghost fin_vis = vis_end;
                proof {
                    self.lemma_pair_in(low_n);
                    assert(b1.rest@[0] == g.placed);
                }
                let branched = self.branch(b1, b2, round, table);
                proof {
                    let g2 = self.grid(b1.rest@);
                    assert(self.others_kept(g, g2, c));
                    assert(extends(g, g2));
                    lemma_extends_trans(g0, g, g2);
                    lemma_extends_trans(gs, g, g2);
                    assert forall|m: int|
                        n0.contains(m) && !n1.contains(m) implies !self.explore_in_range(m) || self.is_settled(g2, m) by {
                        assert(self.removed_ok(g, m));
                        self.lemma_kept_status(g, g2, low_n, m);
                        self.lemma_removed_means(g2, m);
                    }
                    assert(g2.played_on_table[c] == g.played_on_table[c]);
                    if branched {
                        let p = choose|p: int| #[trigger] self.is_branch_at(g2, self.grid(b2.rest@), round.value() as int, table.value() as int, p)
                            && first_seatable(g, c, p) && g2.potential_on_table[c] == g.potential_on_table[c].difference(candidates_upto(g, c, p));
                        assert(self.is_branch(g2, self.grid(b2.rest@), low_n, p));
                        assert(self.chosen_branch(g, g2, low_n, p));
                        assert(first_seatable(g, self.explore_cell(low_n), p));
                        assert forall|k: int|
                            #[trigger] n1.contains(k) && self.explore_in_range(k) && k != low_n && (g2.played_on_table[self.explore_cell(
                                k,
                            )].len() < g2.played_on_table[self.explore_cell(low_n)].len() || (g2.played_on_table[self.explore_cell(k)].len()
                                == g2.played_on_table[self.explore_cell(low_n)].len() && k < low_n)) implies self.is_filled(g2, k) by {
                            assert(fin_vis.contains(k));
                            assert(self.visited_ok(g, k));
                            self.lemma_kept_status(g, g2, low_n, k);
                        }
                        assert(self.fewest_first(g2, n1, low_n));
                    } else {
                        assert(self.is_dead_end(g2, low_n));
                    }
                }
                if branched {
                    Some(false)
                } else {
                    None
                }
            },
        }
    }

    /// A visited to-explore number stands for a table of the schedule that
    /// admits no more players or still has free seats.
    #[verifier::opaque]
    pub open spec fn visited_ok(&self, g: Grid, n: int) -> bool {
        &&& self.explore_in_range(n)
        &&& (self.is_filled(g, n) || g.played_on_table[self.explore_cell(n)].len() < self.explore_size(n))
    }

    /// A dropped to-explore number stands for no table of the schedule, or for
    /// a settled one.
    #[verifier::opaque]
    pub open spec fn removed_ok(&self, g: Grid, n: int) -> bool {
        !self.explore_in_range(n) || self.is_settled(g, n)
    }

    proof fn lemma_removed_out(&self, g: Grid, n: int)
        requires
            !self.explore_in_range(n),
        ensures
            self.removed_ok(g, n),
    {
        reveal(Scheduler::removed_ok);
    }

    proof fn lemma_removed_settled(&self, g: Grid, n: int)
        requires
            self.is_settled(g, n),
        ensures
            self.removed_ok(g, n),
    {
        reveal(Scheduler::removed_ok);
    }

    proof fn lemma_removed_means(&self, g: Grid, n: int)
        requires
            self.removed_ok(g, n),
        ensures
            !self.explore_in_range(n) || self.is_settled(g, n),
    {
        reveal(Scheduler::removed_ok);
    }

    proof fn lemma_visited_filled(&self, g: Grid, n: int)
        requires
            self.explore_in_range(n),
            self.is_filled(g, n),
        ensures
            self.visited_ok(g, n),
    {
        reveal(Scheduler::visited_ok);
    }

    proof fn lemma_visited_short(&self, g: Grid, n: int)
        requires
            self.explore_in_range(n),
            g.played_on_table[self.explore_cell(n)].len() < self.explore_size(n),
        ensures
            self.visited_ok(g, n),
    {
        reveal(Scheduler::visited_ok);
    }

    proof fn lemma_visited_in_range(&self, g: Grid, n: int)
        requires
            self.visited_ok(g, n),
        ensures
            self.explore_in_range(n),
    {
        reveal(Scheduler::visited_ok);
    }

    /// The status of to-explore number `m` survives a change that keeps every
    /// cell but that of `n`, which stands for another table when `m` is visited
    /// or dropped in range.
    proof fn lemma_kept_status(&self, g: Grid, g2: Grid, n: int, m: int)
        requires
            self.wf(),
            self.explore_in_range(n),
            self.others_kept(g, g2, self.explore_cell(n)),
            m != n,
        ensures
            self.removed_ok(g, m) ==> self.removed_ok(g2, m),
            self.visited_ok(g, m) ==> self.visited_ok(g2, m),
            self.visited_ok(g, m) && self.is_filled(g, m) ==> self.is_filled(g2, m),
            self.explore_in_range(m) ==> g2.played_on_table[self.explore_cell(m)] == g.played_on_table[self.explore_cell(m)],
    {
        reveal(Scheduler::removed_ok);
        reveal(Scheduler::visited_ok);
        if self.explore_in_range(m) {
            if self.explore_cell(m) == self.explore_cell(n) {
                self.lemma_explore_injective(m, n);
            }
            self.lemma_pair_in(m);
            self.lemma_status_kept(g, g2, self.explore_cell(n), m);
        }
    }

    /// A to-explore number in range has its cell among the cells.
    proof fn lemma_pair_in(&self, n: int)
        requires
            self.explore_in_range(n),
        ensures
            0 <= self.explore_cell(n) < self.spec_rounds() * self.spec_table_count(),
    {
        lemma_pair_index(self.explore_round(n), self.explore_table(n), self.spec_rounds(), self.spec_table_count());
    }
}

/// The first `n` words of `src` as a vector.
fn prefix_to_vec(src: &[u64], n: usize) -> (r: Vec<u64>)
    requires
        n <= src@.len(),
    ensures
        r@ == src@.subrange(0, n as int),
{
    let mut v: Vec<u64> = Vec::new();
    let mut i: usize = 0;
    while i < n
        invariant
            i <= n,
            n <= src@.len(),
            v@ == src@.subrange(0, i as int),
        decreases n - i,
    {
        v.push(src[i]);
        i = i + 1;
        assert(v@ =~= src@.subrange(0, i as int));
    }
    v
}

/// Writes the words of `src` over the first words of `dst`.
fn write_prefix(dst: &mut [u64], src: &Vec<u64>)
    requires
        src@.len() <= old(dst)@.len(),
    ensures
        final(dst)@.len() == old(dst)@.len(),
        final(dst)@.subrange(0, src@.len() as int) == src@,
        forall|j: int| src@.len() <= j < old(dst)@.len() ==> final(dst)@[j] == old(dst)@[j],
{
    let mut i: usize = 0;
    while i < src.len()
        invariant
            i <= src@.len(),
            src@.len() <= old(dst)@.len(),
            dst@.len() == old(dst)@.len(),
            forall|j: int| 0 <= j < i ==> dst@[j] == src@[j],
            forall|j: int| i <= j < old(dst)@.len() ==> dst@[j] == old(dst)@[j],
        decreases src@.len() - i,
    {
        dst[i] = src[i];
        i = i + 1;
    }
    assert(dst@.subrange(0, src@.len() as int) =~= src@);
}

impl<'a> Scheduler<'a> {
    /// The tables to explore of the search buffer `b`.
    pub open spec fn explore_of(&self, b: Seq<u64>) -> Set<int> {
        ToExplore::<u64>::numbers_of(b.subrange(0, self.spec_to_explore_size()))
    }

    /// The state of the search held by the search buffer `b`.
    pub open spec fn state_of(&self, b: Seq<u64>) -> Grid {
        self.grid(b.subrange(self.spec_to_explore_size(), self.spec_block_size()))
    }

    /// A search buffer that a step may run on: long enough, its tables holding
    /// only players, and at least as many tables left to fill as to explore.
    pub open spec fn valid_buffer(&self, b: Seq<u64>) -> bool {
        &&& b.len() >= self.spec_block_size()
        &&& self.rest_wf(b.subrange(self.spec_to_explore_size(), self.spec_block_size()))
        &&& self.state_of(b).empty >= self.explore_of(b).len()
    }

    /// One step of the depth-first search on the search buffer at the start of
    /// `buffer_1`, with `buffer_2` as room for a branch. Seats the hidden
    /// singles, then walks the tables to explore: a table that stands for no
    /// table of the schedule is dropped; a full table is closed and dropped; a
    /// table with as many potential players as seats is filled; of the others,
    /// the one with fewest players is kept to branch on.
    ///
    /// Returns `None` when the search buffer is a dead end: a table has more
    /// players than seats, or the table to branch on admits no player.
    /// Returns `Some(false)` after a branch: `buffer_2` holds the search buffer
    /// with a player seated at that table, and `buffer_1` the one where that
    /// player may no longer sit there. The table branched on is the first, in
    /// to-explore order, of those with the fewest players that still admit a
    /// player, and the player is its first candidate that has played with none
    /// of the players there; the candidates before it are dropped from the
    /// table's potential players. Returns `Some(true)` when no table is
    /// left to branch on; a table filled in this step may still have free
    /// seats then, with no one left who may take them. Words after the first
    /// search buffer are left as they are. What the step leaves in both search
    /// buffers is `step_outcome`.
    pub fn step(&self, buffer_1: &mut [u64], buffer_2: &mut [u64]) -> (r: Option<bool>)
        requires
            self.wf(),
            self.counts_fit(),
            self.spec_to_explore_size() > 0,
            old(buffer_2)@.len() >= self.spec_block_size(),
            self.valid_buffer(old(buffer_1)@),
            self.state_of(old(buffer_1)@).placed + self.step_budget() <= u64::MAX,
        ensures
            final(buffer_1)@.len() == old(buffer_1)@.len(),
            final(buffer_2)@.len() == old(buffer_2)@.len(),
            forall|j: int|
                self.spec_block_size() <= j < old(buffer_1)@.len() ==> final(buffer_1)@[j] == old(buffer_1)@[j],
            forall|j: int|
                self.spec_block_size() <= j < old(buffer_2)@.len() ==> final(buffer_2)@[j] == old(buffer_2)@[j],
            self.valid_buffer(final(buffer_1)@),
            self.explore_of(final(buffer_1)@).subset_of(self.explore_of(old(buffer_1)@)),
            forall|n: int|
                self.explore_of(old(buffer_1)@).contains(n) && !self.explore_of(final(buffer_1)@).contains(n)
                    ==> !self.explore_in_range(n) || self.is_settled(self.state_of(final(buffer_1)@), n),
            extends(self.state_of(old(buffer_1)@), self.state_of(final(buffer_1)@)),
            extends(
                self.tables_pass(
                    self.rounds_pass(
                        self.state_of(old(buffer_1)@),
                        (self.spec_rounds() * self.spec_player_count()) as nat,
                    ),
                    (self.spec_table_count() * self.spec_player_count()) as nat,
                ),
                self.state_of(final(buffer_1)@),
            ),
            self.state_of(final(buffer_1)@).placed < u64::MAX,
            r != Some(false) ==> final(buffer_2)@ == old(buffer_2)@,
            self.step_outcome(
                self.state_of(old(buffer_1)@),
                self.explore_of(old(buffer_1)@),
                r,
                self.state_of(final(buffer_1)@),
                self.explore_of(final(buffer_1)@),
                self.state_of(final(buffer_2)@),
            ),
            r == Some(true) ==> forall|n: int|
                self.explore_of(final(buffer_1)@).contains(n) ==> self.explore_in_range(n) && self.is_filled(
                    self.state_of(final(buffer_1)@),
                    n,
                ),
            r is None ==> exists|n: int|
                self.explore_of(final(buffer_1)@).contains(n) && self.explore_in_range(n) && self.is_dead_end(
                    self.state_of(final(buffer_1)@),
                    n,
                ),
            r == Some(false) ==> {
                &&& self.valid_buffer(final(buffer_2)@)
                &&& self.explore_of(final(buffer_2)@) == self.explore_of(final(buffer_1)@)
                &&& exists|n: int, p: int, m: Grid|
                    #![trigger first_seatable(m, self.explore_cell(n), p)]
                    self.explore_of(final(buffer_1)@).contains(n) && self.explore_in_range(n) && self.is_branch(
                        self.state_of(final(buffer_1)@),
                        self.state_of(final(buffer_2)@),
                        n,
                        p,
                    ) && self.chosen_branch(m, self.state_of(final(buffer_1)@), n, p) && self.fewest_first(
                        self.state_of(final(buffer_1)@),
                        self.explore_of(final(buffer_1)@),
                        n,
                    )
            },
    {
        let bs = self.offsets.block_size;
        let ghost te = self.spec_to_explore_size();
        let ghost o1 = buffer_1@;
        let ghost o2 = buffer_2@;
        proof {
            self.lemma_layout();
            self.lemma_explore_fits();
        }
        let v1 = prefix_to_vec(buffer_1, bs);
        let v2 = prefix_to_vec(buffer_2, bs);
        let i1 = Schedule::import_buffer(v1, self);
        let i2 = Schedule::import_buffer(v2, self);
        match (i1, i2) {
            (Some(mut s1), Some(mut s2)) => {
                proof {
                    assert(s1.rest@ =~= o1.subrange(te, self.spec_block_size()));
                    assert(s1.to_explore.data@ =~= o1.subrange(0, te));
                    assert(s2.rest@ =~= o2.subrange(te, self.spec_block_size()));
                    assert(s2.to_explore.data@ =~= o2.subrange(0, te));
                }
                let r = self.step_inner(&mut s1, &mut s2);
                let w1 = s1.into_buffer();
                let w2 = s2.into_buffer();
                let ghost c2 = s2;
                write_prefix(buffer_1, &w1);
                write_prefix(buffer_2, &w2);
                proof {
                    let bsi = self.spec_block_size();
                    assert(w1@.len() == bsi);
                    assert(w2@.len() == bsi);
                    assert(buffer_1@.subrange(0, te) =~= w1@.subrange(0, te));
                    assert(w1@.subrange(0, te) =~= s1.to_explore.data@);
                    assert(buffer_1@.subrange(te, bsi) =~= w1@.subrange(te, bsi));
                    assert(w1@.subrange(te, bsi) =~= s1.rest@);
                    assert(buffer_2@.subrange(0, te) =~= w2@.subrange(0, te));
                    assert(w2@.subrange(0, te) =~= s2.to_explore.data@);
                    assert(buffer_2@.subrange(te, bsi) =~= w2@.subrange(te, bsi));
                    assert(w2@.subrange(te, bsi) =~= s2.rest@);
                    if r != Some(false) {
                        assert(w2@ =~= o2.subrange(0, bsi));
                        assert forall|j: int| 0 <= j < o2.len() implies buffer_2@[j] == o2[j] by {
                            if j < bsi {
                                assert(buffer_2@.subrange(0, bsi)[j] == w2@[j]);
                            }
                        }
                        assert(buffer_2@ =~= o2);
                    }
                    let g1 = self.grid(s1.rest@);
                    let g2 = self.grid(s2.rest@);
                    assert(self.state_of(buffer_1@) == g1);
                    assert(self.state_of(buffer_2@) == g2);
                    assert(self.explore_of(buffer_1@) == s1.to_explore.numbers());
                    assert(self.state_of(o1) == self.grid(o1.subrange(te, bsi)));
                    assert(self.explore_of(buffer_2@) == s2.to_explore.numbers());
                    if r == Some(false) {
                        let (n, p, m) = choose|n: int, p: int, m: Grid|
                            #![trigger first_seatable(m, self.explore_cell(n), p)]
                            s1.to_explore.numbers().contains(n) && self.explore_in_range(n) && self.is_branch(g1, g2, n, p)
                                && self.chosen_branch(m, g1, n, p) && self.fewest_first(g1, s1.to_explore.numbers(), n);
                        assert(first_seatable(m, self.explore_cell(n), p));
                        assert(g2.empty == g1.empty);
                        assert(s2.to_explore.numbers() == s1.to_explore.numbers());
                    }
                }
                r
            },
            _ => {
                proof {
                    assert(false);
                }
                None
            },
        }
    }
}

/// There is a single power of two for a count of tables.
proof fn lemma_divisor_unique(a: u32, b: u32, t: usize)
    requires
        is_divisor_for(a, t),
        is_divisor_for(b, t),
    ensures
        a == b,
{
    if a < b {
        if a < b - 1 {
            vstd::arithmetic::power2::lemma_pow2_strictly_increases(a as nat, (b - 1) as nat);
        }
    } else if b < a {
        if b < a - 1 {
            vstd::arithmetic::power2::lemma_pow2_strictly_increases(b as nat, (a - 1) as nat);
        }
    }
}

/// Every count of tables that fits has a power of two below the word width.
proof fn lemma_divisor_exists(s: u32, t: usize)
    requires
        t <= usize::MAX / 2 + 1,
        s < usize::BITS,
        s == 0 || pow2((s - 1) as nat) < t,
    ensures
        exists|d: u32| #[trigger] is_divisor_for(d, t) && d < usize::BITS,
    decreases usize::BITS - s,
{
    vstd::arithmetic::power2::lemma2_to64();
    vstd::arithmetic::power2::lemma2_to64_rest();
    assert(usize::BITS == 32 || usize::BITS == 64);
    if pow2(s as nat) >= t {
        assert(is_divisor_for(s, t));
    } else {
        if s + 1 >= usize::BITS {
            assert(s == usize::BITS - 1);
            assert(false);
        }
        lemma_divisor_exists((s + 1) as u32, t);
    }
}

impl<'a> Scheduler<'a> {
    /// The placement count of the search buffer at the start of `b`.
    pub fn placed_in(&self, b: &[u64]) -> (r: u64)
        requires
            self.wf(),
            b@.len() >= self.spec_block_size(),
        ensures
            r == self.state_of(b@).placed,
    {
        proof {
            self.lemma_layout();
        }
        b[self.offsets.to_explore_size]
    }

    /// The largest placement count that leaves room for the placements of one
    /// step; `None` when no count does.
    pub fn step_room(&self) -> (r: Option<u64>)
        requires
            self.wf(),
        ensures
            r matches Some(room) ==> room + self.step_budget() == u64::MAX,
            r is None ==> self.step_budget() > u64::MAX,
    {
        proof {
            self.lemma_layout();
        }
        let w = self.player_bit_word_count as u128;
        let rt = (self.rounds as u128) + (self.tables.len() as u128);
        let te = self.offsets.to_explore_size as u128;
        let ghost budget = self.step_budget();
        proof {
            assert(budget == 64 * (w * rt) + 4096 * (w * te) + 1) by (nonlinear_arith)
                requires
                    budget == 64 * w * (rt) + 64 * w * (64 * te) + 1;
            assert(w * rt >= 0 && w * te >= 0) by (nonlinear_arith) requires w >= 0, rt >= 0, te >= 0;
        }
        let a = match w.checked_mul(rt) {
            Some(a) => a,
            None => {
                return None;
            },
        };
        let b = match w.checked_mul(te) {
            Some(b) => b,
            None => {
                return None;
            },
        };
        let a64 = match a.checked_mul(64) {
            Some(x) => x,
            None => {
                return None;
            },
        };
        let b4096 = match b.checked_mul(4096) {
            Some(x) => x,
            None => {
                return None;
            },
        };
        let total = match a64.checked_add(b4096) {
            Some(x) => x,
            None => {
                return None;
            },
        };
        if total >= u64::MAX as u128 {
            return None;
        }
        Some(u64::MAX - (total as u64) - 1)
    }
}

} // verus!

verus! {

/// The members of `s` below `x`.
pub open spec fn below(s: Set<int>, x: int) -> Set<int> {
    s.filter(|y: int| y < x)
}

/// The member of `s` with exactly `i` members below it: its `i`-th smallest,
/// counting from zero.
pub open spec fn nth_member(s: Set<int>, i: int) -> Option<int> {
    if exists|x: int| #[trigger] s.contains(x) && below(s, x).len() == i {
        Some(choose|x: int| #[trigger] s.contains(x) && below(s, x).len() == i)
    } else {
        None
    }
}

/// The members of `s` below word `byte`, and those of word `byte` whose bits
/// are clear in `t`.
pub open spec fn scanned(s: Set<int>, byte: int, t: u64) -> Set<int> {
    s.filter(|p: int| p < 64 * byte || (p / 64 == byte && !crate::bits::bit(t, p % 64)))
}

/// At most one member of a finite set has exactly `i` members below it.
pub proof fn lemma_nth_unique_pub(s: Set<int>, x: int, y: int)
    requires
        s.finite(),
        s.contains(x),
        s.contains(y),
        below(s, x).len() == below(s, y).len(),
    ensures
        x == y,
{
    lemma_nth_unique(s, x, y);
}

/// At most one member of a finite set has exactly `i` members below it.
proof fn lemma_nth_unique(s: Set<int>, x: int, y: int)
    requires
        s.finite(),
        s.contains(x),
        s.contains(y),
        below(s, x).len() == below(s, y).len(),
    ensures
        x == y,
{
    if x < y {
        assert(below(s, x).insert(x).subset_of(below(s, y)));
        vstd::set_lib::lemma_len_subset(below(s, x).insert(x), below(s, y));
        vstd::set_lib::lemma_len_subset(below(s, x), s);
    } else if y < x {
        assert(below(s, y).insert(y).subset_of(below(s, x)));
        vstd::set_lib::lemma_len_subset(below(s, y).insert(y), below(s, x));
        vstd::set_lib::lemma_len_subset(below(s, y), s);
    }
}

impl<'a> Scheduler<'a> {
    /// The `i`-th smallest player, counting from zero, of the set held by the
    /// run of words at `base` of `rest`; `None` when the set has at most `i`
    /// members.
    fn nth_player(&self, rest: &Vec<u64>, base: usize, i: usize) -> (r: Option<usize>)
        requires
            self.wf(),
            base + self.spec_words() <= rest@.len(),
        ensures
            r matches Some(x) ==> nth_member(self.set_at(rest@, base as int), i as int) == Some(x as int),
            r is None ==> nth_member(self.set_at(rest@, base as int), i as int) is None,
    {
        let ghost s = self.set_at(rest@, base as int);
        let w = self.player_bit_word_count;
        proof {
            self.lemma_layout();
            crate::bits::lemma_region_len(rest@, base as int, w as int);
            crate::bits::lemma_bit_ops();
        }
        let rest_len = rest.len();
        let mut counter: usize = 0;
        let mut byte: usize = 0;
        let mut found: Option<usize> = None;
        let mut done = false;
        proof {
            assert(s.filter(|p: int| p < 64 * 0) =~= Set::<int>::empty());
        }
        while byte < w && !done
            invariant
                w == self.spec_words(),
                64 * w <= usize::MAX,
                base + w <= rest@.len(),
                rest@.len() == rest_len,
                s == self.set_at(rest@, base as int),
                s.finite(),
                byte <= w,
                done == found is Some,
                counter <= i,
                !done ==> counter == s.filter(|p: int| p < 64 * byte).len(),
                found matches Some(x) ==> s.contains(x as int) && below(s, x as int).len() == i,
            decreases w - byte,
        {
            let word = rest[base + byte];
            let mut temp = word;
            proof {
                assert(scanned(s, byte as int, temp) =~= s.filter(|p: int| p < 64 * byte)) by {
                    assert forall|p: int| s.contains(p) && p / 64 == byte implies crate::bits::bit(word, p % 64) by {
                    }
                }
            }
            while temp != 0 && !done
                invariant
                    w == self.spec_words(),
                    64 * w <= usize::MAX,
                    base + w <= rest@.len(),
                    s == self.set_at(rest@, base as int),
                    s.finite(),
                    byte < w,
                    word == rest@[base + byte],
                    done == found is Some,
                    counter <= i,
                    forall|b: int| crate::bits::bit(temp, b) ==> crate::bits::bit(word, b),
                    forall|b1: int, b2: int|
                        crate::bits::bit(word, b1) && !crate::bits::bit(temp, b1) && crate::bits::bit(temp, b2) ==> b1 < b2,
                    !done ==> counter == scanned(s, byte as int, temp).len(),
                    found matches Some(x) ==> s.contains(x as int) && below(s, x as int).len() == i,
                decreases temp,
            {
                proof {
                    crate::bits::lemma_bit_ops();
                    crate::bits::lemma_trailing_zeros(temp);
                }
                let tz = temp.trailing_zeros() as usize;
                let player = byte * 64 + tz;
                proof {
                    crate::bits::lemma_clear_bit_smaller(temp, tz as u64);
                    assert(player / 64 == byte && player % 64 == tz);
                    assert(s.contains(player as int));
                    assert(below(s, player as int) =~= scanned(s, byte as int, temp)) by {
                        assert forall|p: int| below(s, player as int).contains(p) implies scanned(s, byte as int, temp).contains(p) by {
                            if p >= 64 * byte {
                                assert(p / 64 == byte);
                                assert(p % 64 < tz);
                            }
                        }
                        assert forall|p: int| scanned(s, byte as int, temp).contains(p) implies below(s, player as int).contains(p) by {
                            if p >= 64 * byte {
                                assert(p / 64 == byte);
                                assert(crate::bits::bit(word, p % 64));
                            }
                        }
                    }
                }
                let ghost old_temp = temp;
                temp = temp & !(1u64 << (tz as u64));
                if counter == i {
                    found = Some(player);
                    done = true;
                } else {
                    proof {
                        assert(scanned(s, byte as int, temp) =~= scanned(s, byte as int, old_temp).insert(player as int)) by {
                            assert forall|p: int| scanned(s, byte as int, temp).contains(p) implies scanned(s, byte as int, old_temp).insert(player as int).contains(p) by {
                                if p >= 64 * byte && p != player {
                                    assert(p / 64 == byte);
                                    assert(p % 64 != tz);
                                }
                            }
                        }
                        vstd::set_lib::lemma_len_subset(scanned(s, byte as int, old_temp), s);
                        assert(!scanned(s, byte as int, old_temp).contains(player as int));
                    }
                    counter = counter + 1;
                }
            }
            proof {
                if !done {
                    assert(scanned(s, byte as int, temp) =~= s.filter(|p: int| p < 64 * (byte + 1))) by {
                        assert forall|p: int| s.contains(p) && p / 64 == byte implies !crate::bits::bit(temp, p % 64) by {
                            crate::bits::lemma_zero_iff_no_bits(temp);
                        }
                    }
                }
            }
            byte = byte + 1;
        }
        proof {
            match found {
                Some(x) => {
                    assert(s.contains(x as int) && below(s, x as int).len() == i);
                    let c = choose|y: int| #[trigger] s.contains(y) && below(s, y).len() == i;
                    lemma_nth_unique(s, x as int, c);
                },
                None => {
                    assert(s.filter(|p: int| p < 64 * byte) =~= s);
                    if exists|y: int| #[trigger] s.contains(y) && below(s, y).len() == i {
                        let y = choose|y: int| #[trigger] s.contains(y) && below(s, y).len() == i;
                        assert(below(s, y).subset_of(s.remove(y)));
                        vstd::set_lib::lemma_len_subset(below(s, y), s.remove(y));
                    }
                },
            }
        }
        found
    }
}

impl<'a> Scheduler<'a> {
    /// The players at `table` in `round`, read from the words `rest`; rounds
    /// past the last read on into the words that follow.
    pub open spec fn sitting(&self, rest: Seq<u64>, round: int, table: int) -> Set<int> {
        self.set_at(rest, self.spec_fixed_off() + cell(self.spec_words(), round * self.spec_table_count() + table))
    }

    /// The number of text rows per round: the players per table, plus one.
    pub open spec fn row_count(&self) -> int {
        self.spec_player_count() / self.spec_table_count() + 1
    }

    /// The `i`-th smallest player at `table` in `round`, read from `rest`.
    pub open spec fn seat_of(&self, rest: Seq<u64>) -> spec_fn(int, int, int) -> Option<int> {
        |round: int, table: int, i: int| nth_member(self.sitting(rest, round, table), i)
    }

    /// The schedule as text: a header with the table numbers, then for each
    /// round (as many as there are tables) a separator and one row per seat.
    pub open spec fn schedule_text(&self, rest: Seq<u64>) -> Seq<char> {
        grid_text(self.seat_of(rest), self.spec_table_count(), self.row_count())
    }

    /// Whether every number the text shows has at most three digits.
    pub open spec fn printable(&self, rest: Seq<u64>) -> bool {
        &&& self.spec_table_count() < 1000
        &&& forall|r: int, t: int, i: int|
            0 <= r < self.spec_table_count() && 0 <= t < self.spec_table_count() && 0 <= i < self.row_count()
                ==> (#[trigger] nth_member(self.sitting(rest, r, t), i) matches Some(x) ==> x < 1000)
    }

    /// Writes the schedule held by `buffer` as text, one block of rows per
    /// round and one column per table.
    pub fn format_schedule(&self, buffer: &Schedule, output: &mut String)
        requires
            self.wf(),
            self.printable(buffer.rest_spec()),
            self.spec_fixed_off() + cell(
                self.spec_words(),
                self.spec_table_count() * self.spec_table_count(),
            ) <= buffer.rest_spec().len(),
        ensures
            final(output)@ == old(output)@ + self.schedule_text(buffer.rest_spec()),
    {
        proof {
            reveal_strlit("     ");
            reveal_strlit("|");
            reveal_strlit("  ");
            reveal_strlit("\n-----");
            reveal_strlit("+");
            reveal_strlit("-----");
            reveal_strlit("\n");
            reveal_strlit("\n     ");
            self.lemma_layout();
        }
        let ghost o = output@;
        let ghost rest = buffer.rest_spec();
        let t_count = self.tables.len();
        let rest_len = buffer.rest.len();
        proof {
            let w = self.spec_words();
            let p = self.spec_player_count();
            if p > 0 {
                assert(w >= 1);
                assert(w * p >= p) by (nonlinear_arith) requires w >= 1, p >= 0;
            }
            assert(w * p >= 0) by (nonlinear_arith) requires w >= 0, p >= 0;
            assert(p < usize::MAX);
        }
        output.append("     ");
        let mut table: usize = 0;
        while table < t_count
            invariant
                t_count == self.spec_table_count(),
                t_count < 1000,
                table <= t_count,
                output@ == o + spaces(5) + header_cells(table as int),
            decreases t_count - table,
        {
            proof {
                reveal_strlit("     ");
                reveal_strlit("|");
                reveal_strlit("  ");
                reveal_strlit("\n-----");
                reveal_strlit("+");
                reveal_strlit("-----");
                reveal_strlit("\n");
                reveal_strlit("\n     ");
            }
            output.append("|");
            crate::text::append_padded(output, table + 1);
            output.append("  ");
            proof {
                assert(output@ =~= o + spaces(5) + header_cells(table + 1));
            }
            table = table + 1;
        }
        let mut round: usize = 0;
        while round < t_count
            invariant
                self.wf(),
                self.printable(rest),
                rest == buffer.rest_spec(),
                self.spec_fixed_off() + cell(self.spec_words(), t_count * t_count) <= rest.len(),
                t_count == self.spec_table_count(),
                t_count < 1000,
                round <= t_count,
                output@ == o + spaces(5) + header_cells(t_count as int) + blocks(self.seat_of(rest), t_count as int, self.row_count(), round as int),
                self.spec_player_count() < usize::MAX,
                rest.len() == rest_len,
            decreases t_count - round,
        {
            proof {
                reveal_strlit("     ");
                reveal_strlit("|");
                reveal_strlit("  ");
                reveal_strlit("\n-----");
                reveal_strlit("+");
                reveal_strlit("-----");
                reveal_strlit("\n");
                reveal_strlit("\n     ");
            }
            let ghost at_block = output@;
            output.append("\n-----");
            let mut k: usize = 0;
            while k < t_count
                invariant
                    k <= t_count,
                    output@ == at_block + seq!['\n', '-', '-', '-', '-', '-'] + rule(k as int),
                decreases t_count - k,
            {
                proof {
                    reveal_strlit("     ");
                    reveal_strlit("|");
                    reveal_strlit("  ");
                    reveal_strlit("\n-----");
                    reveal_strlit("+");
                    reveal_strlit("-----");
                    reveal_strlit("\n");
                    reveal_strlit("\n     ");
                }
                output.append("+");
                output.append("-----");
                proof {
                    assert(output@ =~= at_block + seq!['\n', '-', '-', '-', '-', '-'] + rule(k + 1));
                }
                k = k + 1;
            }
            let n_rows = self.player_count / t_count + 1;
            let ghost at_rows = output@;
            let mut i: usize = 0;
            while i < n_rows
                invariant
                    self.wf(),
                    self.printable(rest),
                    rest == buffer.rest_spec(),
                    self.spec_fixed_off() + cell(self.spec_words(), t_count * t_count) <= rest.len(),
                    t_count == self.spec_table_count(),
                    0 < t_count < 1000,
                    round < t_count,
                    n_rows == self.row_count(),
                    i <= n_rows,
                    output@ == at_rows + rows_text(self.seat_of(rest), t_count as int, n_rows as int, round as int, i as int),
                    rest.len() == rest_len,
                decreases n_rows - i,
            {
                proof {
                    reveal_strlit("     ");
                    reveal_strlit("|");
                    reveal_strlit("  ");
                    reveal_strlit("\n-----");
                    reveal_strlit("+");
                    reveal_strlit("-----");
                    reveal_strlit("\n");
                    reveal_strlit("\n     ");
                }
                let ghost at_row = output@;
                if i == n_rows / 2 {
                    output.append("\n");
                    crate::text::append_padded(output, round + 1);
                    output.append("  ");
                } else {
                    output.append("\n     ");
                }
                proof {
                    assert(output@ =~= at_row + row_lead(n_rows as int, round as int, i as int));
                }
                let ghost at_cells = output@;
                let mut t: usize = 0;
                while t < t_count
                    invariant
                        self.wf(),
                        self.printable(rest),
                        rest == buffer.rest_spec(),
                        self.spec_fixed_off() + cell(self.spec_words(), t_count * t_count) <= rest.len(),
                        t_count == self.spec_table_count(),
                        0 < t_count < 1000,
                        round < t_count,
                        n_rows == self.row_count(),
                        i < n_rows,
                        t <= t_count,
                        output@ == at_cells + row_cells(self.seat_of(rest), round as int, i as int, t as int),
                        rest.len() == rest_len,
                    decreases t_count - t,
                {
                    proof {
                        reveal_strlit("     ");
                        reveal_strlit("|");
                        reveal_strlit("  ");
                        reveal_strlit("\n-----");
                        reveal_strlit("+");
                        reveal_strlit("-----");
                        reveal_strlit("\n");
                        reveal_strlit("\n     ");
                    }
                    output.append("|");
                    proof {
                        assert(round * t_count + t < t_count * t_count) by (nonlinear_arith)
                            requires round < t_count, t < t_count;
                        assert(cell(self.spec_words(), round * t_count + t) + self.spec_words() <= cell(
                            self.spec_words(),
                            t_count * t_count,
                        )) by (nonlinear_arith)
                            requires round * t_count + t < t_count * t_count, self.spec_words() >= 0;
                        assert(self.spec_words() * (round * t_count + t) >= 0) by (nonlinear_arith)
                            requires round * t_count + t >= 0, self.spec_words() >= 0;
                        assert(round * t_count <= t_count * t_count) by (nonlinear_arith)
                            requires round < t_count;
                        assert(t_count * t_count <= 1000 * 1000) by (nonlinear_arith)
                            requires t_count < 1000;
                    }
                    let base = self.offsets.played_on_table_offset + self.player_bit_word_count * (round
                        * t_count + t);
                    let ghost at_cell = output@;
                    match self.nth_player(&buffer.rest, base, i) {
                        Some(p) => {
                            proof {
                                assert(nth_member(self.sitting(rest, round as int, t as int), i as int) == Some(
                                    p as int,
                                ));
                            }
                            crate::text::append_padded(output, p);
                            output.append("  ");
                        },
                        None => {
                            output.append("     ");
                        },
                    }
                    proof {
                        assert(output@ =~= at_cell + cell_text(self.seat_of(rest)(round as int, t as int, i as int)));
                        assert(output@ =~= at_cells + row_cells(self.seat_of(rest), round as int, i as int, t + 1));
                    }
                    t = t + 1;
                }
                proof {
                    assert(output@ =~= at_rows + rows_text(self.seat_of(rest), t_count as int, n_rows as int, round as int, i + 1));
                }
                i = i + 1;
            }
            proof {
                assert(output@ =~= o + spaces(5) + header_cells(t_count as int) + blocks(self.seat_of(rest), t_count as int, self.row_count(), round + 1));
            }
            round = round + 1;
        }
    }
}

impl<'a> Scheduler<'a> {
    /// Whether there is at least one round and the to-explore words have a
    /// bit for every table of every round: what setting up a first search
    /// buffer needs.
    pub fn has_explore_room(&self) -> (r: bool)
        requires
            self.wf(),
        ensures
            r == (self.spec_rounds() >= 1 && self.explore_room()),
    {
        proof {
            self.lemma_layout();
            self.lemma_explore_fits();
            self.lemma_shift();
        }
        if self.rounds < 1 {
            return false;
        }
        if self.rounds <= 1 || self.tables.len() == 0 {
            return true;
        }
        let s = ToExplore::<u64>::calc_divisor(self.offsets.divisor);
        proof {
            self.lemma_shift_is(s);
            assert(usize::BITS <= 64);
        }
        let mut p: u128 = 1;
        let mut k: u32 = 0;
        proof {
            vstd::arithmetic::power2::lemma2_to64();
        }
        while k < s
            invariant
                k <= s,
                s < 64,
                p == pow2(k as nat),
            decreases s - k,
        {
            proof {
                vstd::arithmetic::power2::lemma2_to64();
                vstd::arithmetic::power2::lemma2_to64_rest();
                if k + 1 < 64 {
                    lemma_pow2_strictly_increases(k as nat, 63);
                }
                lemma_pow2_unfold((k + 1) as nat);
            }
            p = p * 2;
            k = k + 1;
        }
        proof {
            vstd::arithmetic::power2::lemma2_to64();
            vstd::arithmetic::power2::lemma2_to64_rest();
            if s < 63 {
                lemma_pow2_strictly_increases(s as nat, 63);
            }
            assert(p <= 0x8000_0000_0000_0000u128);
            assert((self.rounds as u128 - 1) * p <= 0xffff_ffff_ffff_ffffu128 * 0x8000_0000_0000_0000u128) by (nonlinear_arith)
                requires
                    self.rounds as u128 - 1 <= 0xffff_ffff_ffff_ffffu128,
                    p <= 0x8000_0000_0000_0000u128,
                    self.rounds >= 1;
        }
        let lhs = (self.rounds as u128 - 1) * p + self.tables.len() as u128;
        let rhs = 64 * (self.offsets.to_explore_size as u128);
        lhs <= rhs
    }
}

/// Whether the to-explore words of a solver for `tables` and `rounds` have a
/// bit for every table of every round: `d` is the least power of two covering
/// the tables, and rounds are `2^s` bits apart for the least `s` with `2^s`
/// covering `d`.
pub open spec fn room_for(tables: Seq<usize>, rounds: int) -> bool {
    let t = tables.len() as int;
    let d = choose|d: u32| #[trigger] is_divisor_for(d, t as usize);
    let s = choose|s: u32| #[trigger] is_divisor_for(s, d as usize);
    rounds <= 1 || t == 0 || (rounds - 1) * pow2(s as nat) + t <= 64 * div_ceil(rounds * d * 2, 64)
}

impl<'a> Scheduler<'a> {
    /// The room of a solver is the room for its tables and rounds.
    pub proof fn lemma_room_for(&self)
        requires
            self.wf(),
        ensures
            self.explore_room() == room_for(self.spec_tables(), self.spec_rounds()),
    {
        let t = self.spec_table_count();
        let d = choose|d: u32| #[trigger] is_divisor_for(d, t as usize);
        assert(is_divisor_for(self.spec_size_divisor() as u32, t as usize));
        lemma_divisor_unique(d, self.spec_size_divisor() as u32, t as usize);
    }
}

impl<'a> Scheduler<'a> {
    /// Whether the run of words of `b` at `at` holds only players.
    fn only_players(&self, b: &[u64], at: usize) -> (r: bool)
        requires
            self.wf(),
            at + self.spec_words() <= b@.len(),
        ensures
            r == crate::bits::region(b@, at as int, self.spec_words()).subset_of(self.players()),
    {
        let ghost reg = crate::bits::region(b@, at as int, self.spec_words());
        let w = self.player_bit_word_count;
        let p = self.player_count;
        let n = b.len();
        proof {
            self.lemma_layout();
        }
        let mut j: usize = 0;
        while j < w
            invariant
                b@.len() == n,
                w == self.spec_words(),
                p == self.spec_player_count(),
                64 * w <= usize::MAX,
                at + w <= b@.len(),
                reg == crate::bits::region(b@, at as int, w as int),
                j <= w,
                forall|q: int| 0 <= q < 64 * j && #[trigger] reg.contains(q) ==> q < p,
            decreases w - j,
        {
            let word = b[at + j];
            let lo = 64 * j;
            let ok = if lo >= p {
                word == 0
            } else if p - lo >= 64 {
                true
            } else {
                let k = (p - lo) as u64;
                proof {
                    assert(k < 64 ==> (1u64 << k) >= 1u64) by (bit_vector);
                }
                word & !((1u64 << k) - 1) == 0
            };
            proof {
                crate::bits::lemma_bit_ops();
                assert forall|i: int| 0 <= i < 64 implies #[trigger] reg.contains(64 * j + i) == crate::bits::bit(word, i) by {
                    crate::bits::lemma_region_word(b@, at as int, w as int, j as int, i);
                }
                if lo >= p {
                    crate::bits::lemma_zero_iff_no_bits(word);
                    if !ok {
                        let i = choose|i: int| crate::bits::bit(word, i);
                        assert(reg.contains(64 * j + i));
                    }
                } else if p - lo < 64 {
                    let k = (p - lo) as u64;
                    crate::bits::lemma_low_mask(k);
                    let m = word & !(((1u64 << k) - 1) as u64);
                    crate::bits::lemma_zero_iff_no_bits(m);
                    if !ok {
                        let i = choose|i: int| crate::bits::bit(m, i);
                        assert(reg.contains(64 * j + i) && 64 * j + i >= p);
                    }
                }
            }
            if !ok {
                return false;
            }
            proof {
                assert forall|q: int| 0 <= q < 64 * (j + 1) && #[trigger] reg.contains(q) implies q < p by {
                    if q >= 64 * j {
                        let i = q - 64 * j;
                        assert(reg.contains(64 * j + i) == crate::bits::bit(word, i));
                        if lo < p && p - lo < 64 {
                            let k = (p - lo) as u64;
                            crate::bits::lemma_low_mask(k);
                            assert(!crate::bits::bit(word & !(((1u64 << k) - 1) as u64), i));
                        } else if lo >= p {
                            crate::bits::lemma_zero_iff_no_bits(word);
                        }
                    }
                }
            }
            j = j + 1;
        }
        proof {
            assert forall|q: int| reg.contains(q) implies self.players().contains(q) by {
                assert(0 <= q < 64 * w);
            }
        }
        true
    }

    /// The tables to explore of `b` are as many as the set bits of its
    /// to-explore words.
    proof fn lemma_explore_count(&self, b: Seq<u64>, j: int)
        requires
            self.wf(),
            b.len() >= self.spec_block_size(),
            0 <= j <= self.spec_to_explore_size(),
        ensures
            crate::bits::bits_count(b, 0, 64 * j) == crate::bits::region_below(b, 0, 64 * j).len(),
            crate::bits::region_below(b, 0, 64 * j).finite(),
    {
        crate::bits::lemma_bits_count_card(b, 0, 64 * j);
    }

    /// Whether a step may run on the search buffer at the start of `b`: it is
    /// long enough, its tables hold only players, and it has at least as many
    /// tables left to fill as to explore.
    pub fn is_valid_buffer(&self, b: &[u64]) -> (r: bool)
        requires
            self.wf(),
        ensures
            r == self.valid_buffer(b@),
    {
        proof {
            self.lemma_layout();
        }
        if b.len() < self.offsets.block_size {
            return false;
        }
        let te = self.offsets.to_explore_size;
        let w = self.player_bit_word_count;
        let cells = self.rounds * self.tables.len();
        let ghost rest = b@.subrange(te as int, self.spec_block_size());
        let ghost g = self.grid(rest);
        proof {
            assert(cells == self.spec_rounds() * self.spec_table_count());
        }
        let mut c: usize = 0;
        while c < cells
            invariant
                self.wf(),
                te == self.spec_to_explore_size(),
                w == self.spec_words(),
                cells == self.spec_rounds() * self.spec_table_count(),
                b@.len() >= self.spec_block_size(),
                rest == b@.subrange(te as int, self.spec_block_size()),
                g == self.grid(rest),
                c <= cells,
                forall|k: int| 0 <= k < c ==> #[trigger] g.played_on_table[k].subset_of(self.players()),
                forall|k: int| 0 <= k < c ==> #[trigger] g.potential_on_table[k].subset_of(self.players()),
            decreases cells - c,
        {
            proof {
                self.lemma_layout();
                assert(cell(w as int, c as int) + w <= cell(w as int, cells as int));
            }
            let fixed_at = te + self.offsets.played_on_table_offset + w * c;
            let potential_at = te + self.offsets.potential_on_table_offset + w * c;
            proof {
                assert(w * c == cell(w as int, c as int));
                assert(g.played_on_table[c as int] == crate::bits::region(rest, self.spec_fixed_off() + cell(w as int, c as int), w as int));
                assert(crate::bits::region(rest, self.spec_fixed_off() + cell(w as int, c as int), w as int) =~= crate::bits::region(b@, fixed_at as int, w as int)) by {
                    assert forall|q: int| #[trigger] crate::bits::region(rest, self.spec_fixed_off() + cell(w as int, c as int), w as int).contains(q)
                        <==> crate::bits::region(b@, fixed_at as int, w as int).contains(q) by {
                        if 0 <= q < 64 * w {
                            assert(0 <= q / 64 < w);
                            assert(rest[self.spec_fixed_off() + cell(w as int, c as int) + q / 64] == b@[fixed_at + q / 64]);
                        }
                    }
                }
                assert(g.potential_on_table[c as int] == crate::bits::region(rest, self.spec_potential_off() + cell(w as int, c as int), w as int));
                assert(crate::bits::region(rest, self.spec_potential_off() + cell(w as int, c as int), w as int) =~= crate::bits::region(b@, potential_at as int, w as int)) by {
                    assert forall|q: int| #[trigger] crate::bits::region(rest, self.spec_potential_off() + cell(w as int, c as int), w as int).contains(q)
                        <==> crate::bits::region(b@, potential_at as int, w as int).contains(q) by {
                        if 0 <= q < 64 * w {
                            assert(0 <= q / 64 < w);
                            assert(rest[self.spec_potential_off() + cell(w as int, c as int) + q / 64] == b@[potential_at + q / 64]);
                        }
                    }
                }
            }
            if !self.only_players(b, fixed_at) {
                return false;
            }
            if !self.only_players(b, potential_at) {
                return false;
            }
            c = c + 1;
        }
        proof {
            assert(self.spec_to_explore_size() * 64 <= self.spec_rounds() * self.spec_size_divisor() * 2 + 63) by (nonlinear_arith)
                requires
                    self.spec_to_explore_size() == div_ceil(self.spec_rounds() * self.spec_size_divisor() * 2, 64),
                    self.spec_rounds() * self.spec_size_divisor() * 2 >= 0;
            self.lemma_explore_fits();
        }
        let mut count: u64 = 0;
        let mut j: usize = 0;
        while j < te
            invariant
                self.wf(),
                te == self.spec_to_explore_size(),
                b@.len() >= self.spec_block_size(),
                j <= te,
                count == crate::bits::bits_count(b@, 0, 64 * j),
                count <= 64 * j,
                64 * te <= usize::MAX,
            decreases te - j,
        {
            let ones = crate::bits::count_ones(b[j]);
            proof {
                crate::bits::lemma_bits_count_word(b@, 0, j as int, 64);
                crate::bits::lemma_pop_le(b@[j as int], 64);
            }
            count = count + ones as u64;
            j = j + 1;
        }
        proof {
            self.lemma_explore_count(b@, te as int);
            assert(self.explore_of(b@) =~= crate::bits::region_below(b@, 0, 64 * te)) by {
                assert forall|n: int| self.explore_of(b@).contains(n) <==> crate::bits::region_below(b@, 0, 64 * te).contains(n) by {
                    if 0 <= n < 64 * te {
                        assert(0 <= n / 64 < te);
                    }
                }
            }
            assert(self.state_of(b@).empty == b@[te as int + 1]);
            assert(rest.len() >= self.spec_rest_len());
        }
        b[te + 1] >= count
    }
}

impl<'a> Scheduler<'a> {
    /// Whether the search can run for this solver: the player counts fit the
    /// 32-bit counters, and there is at least one to-explore word.
    pub fn can_search(&self) -> (r: bool)
        requires
            self.wf(),
        ensures
            r == (self.counts_fit() && self.spec_to_explore_size() > 0),
    {
        proof {
            self.lemma_layout();
        }
        self.player_bit_word_count <= 0x3ff_ffff && self.offsets.to_explore_size > 0
    }
}

/// Whether a solver for `tables` and `rounds` fits the machine, as
/// `scheduler_fits` states it.
pub fn fits(tables: &[usize], rounds: usize) -> (r: bool)
    ensures
        r == scheduler_fits(tables@, rounds as int),
{
    let max: u128 = usize::MAX as u128;
    let mut p: u128 = 0;
    let mut i: usize = 0;
    while i < tables.len()
        invariant
            i <= tables@.len(),
            max == usize::MAX,
            p == seq_sum(tables@.subrange(0, i as int)),
            p <= max,
        decreases tables@.len() - i,
    {
        proof {
            lemma_seq_sum_step(tables@, i as int);
        }
        p = p + tables[i] as u128;
        if p > max {
            proof {
                lemma_prefix_mono(tables@, i + 1, tables@.len() as int);
                assert(tables@.subrange(0, tables@.len() as int) =~= tables@);
            }
            return false;
        }
        i = i + 1;
    }
    proof {
        assert(tables@.subrange(0, tables@.len() as int) =~= tables@);
        lemma_seq_sum_nonneg(tables@);
    }
    let w: u128 = p / 64 + if p % 64 != 0 { 1 } else { 0 };
    let t: u128 = tables.len() as u128;
    let r: u128 = rounds as u128;
    proof {
        assert(w <= p) by (nonlinear_arith)
            requires w == p / 64 + (if p % 64 != 0 { 1int } else { 0int }), p >= 0;
        assert(w * p <= max * max) by (nonlinear_arith) requires w <= max, p <= max, w >= 0, p >= 0;
        assert(w * t <= max * max) by (nonlinear_arith) requires w <= max, t <= max, w >= 0, t >= 0;
        assert(w * r <= max * max) by (nonlinear_arith) requires w <= max, r <= max, w >= 0, r >= 0;
        assert(r * t <= max * max) by (nonlinear_arith) requires r <= max, t <= max, r >= 0, t >= 0;
        assert(max * max < 0xffff_ffff_ffff_ffff_ffff_ffff_ffff_ffffu128) by (nonlinear_arith)
            requires max <= 0xffff_ffff_ffff_ffffu128;
    }
    if t > max / 2 + 1 {
        return false;
    }
    let rt = r * t;
    if rt > max {
        return false;
    }
    let wp = w * p;
    let wt = w * t;
    let wr = w * r;
    if wp > max || wt > max || wr > max {
        proof {
            assert(w * t * r >= 0) by (nonlinear_arith) requires w >= 0, t >= 0, r >= 0;
        }
        return false;
    }
    proof {
        assert(wt * r <= max * max) by (nonlinear_arith) requires wt <= max, r <= max, wt >= 0, r >= 0;
    }
    let wtr = wt * r;
    if wtr > max {
        return false;
    }
    proof {
        assert(w * t * r == wtr) by (nonlinear_arith) requires wt == w * t, wtr == wt * r;
        assert(rounds * tables@.len() * 2 == rt * 2) by (nonlinear_arith)
            requires rt == r * t, r == rounds, t == tables@.len();
    }
    2 + wp + wt + wr + 2 * wtr + rt * 2 + 64 <= max
}

} // verus!
