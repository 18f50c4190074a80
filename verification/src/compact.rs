//! A solver state for one fixed problem size, six rounds of six tables of four
//! players, held in single words: one bit per player, one bit per table of a
//! round in the set of tables still to explore.
use vstd::prelude::*;
use crate::bits::{bit, word_set, pop, lemma_bit_ops, lemma_trailing_zeros, lemma_clear_bit_smaller, lemma_pop_card, lemma_low_mask, count_ones};

verus! {

pub const ROUND_COUNT: usize = 6;

pub const TABLE_COUNT: usize = 6;

pub const PLAYERS_PER_TABLE: usize = 4;

pub const TO_EXPLORE_SHIFT: usize = 3;

pub const PLAYER_COUNT: usize = 24;

/// The number of games: one per table per round.
pub const GAME_COUNT: usize = 36;

/// Whether every member of `s` is a player number.
pub open spec fn players_only(s: Set<int>) -> bool {
    forall|i: int| #[trigger] s.contains(i) ==> 0 <= i < PLAYER_COUNT
}

/// Whether `b` is the bit of a table of a round: `(round << 3) + table`.
pub open spec fn valid_bit(b: int) -> bool {
    0 <= b < 64 && b / 8 < ROUND_COUNT && b % 8 < TABLE_COUNT
}

/// The bits of every table of every round.
pub open spec fn all_tables() -> Set<int> {
    Set::new(|b: int| valid_bit(b))
}

/// The index of the game of `table` in `round`.
pub open spec fn game(round: int, table: int) -> int {
    round * TABLE_COUNT + table
}

/// A search state: who sits where, who could still sit where, who has played
/// with whom, and which tables are still to explore.
#[derive(Copy, Clone, Debug)]
pub struct State {
    tables_to_explore: u64,
    players_played_count: u8,
    empty_table_count: u8,
    players_played_with: [u64; PLAYER_COUNT],
    played_in_round: [u64; ROUND_COUNT],
    played_on_table: [u64; GAME_COUNT],
    potential_on_table: [u64; GAME_COUNT],
    played_on_table_total: [u64; TABLE_COUNT],
}

/// What a search state holds, as sets: the tables still to explore, the
/// counts of placed players and of open tables, and for each game (`round * 6
/// + table`), player, round and table its sets of players.
#[verifier::ext_equal]
pub struct StateView {
    pub explore: Set<int>,
    pub placed: int,
    pub open: int,
    pub played: Seq<Set<int>>,
    pub potential: Seq<Set<int>>,
    pub with: Seq<Set<int>>,
    pub in_round: Seq<Set<int>>,
    pub total: Seq<Set<int>>,
}

/// `v` with `player` placed at `table` in `round`.
pub open spec fn place_view(v: StateView, round: int, table: int, player: int) -> StateView {
    let g0 = game(round, table);
    StateView {
        explore: v.explore,
        placed: v.placed + 1,
        open: v.open,
        played: v.played.update(g0, v.played[g0].insert(player)),
        potential: Seq::new(
            GAME_COUNT as nat,
            |g: int|
                if g == g0 {
                    v.potential[g].difference(v.with[player]).insert(player)
                } else if g / 6 == round || g % 6 == table {
                    v.potential[g].remove(player)
                } else {
                    v.potential[g]
                },
        ),
        with: Seq::new(
            PLAYER_COUNT as nat,
            |q: int|
                if q == player {
                    v.with[q].union(v.played[g0])
                } else if v.played[g0].contains(q) {
                    v.with[q].insert(player)
                } else {
                    v.with[q]
                },
        ),
        in_round: v.in_round.update(round, v.in_round[round].insert(player)),
        total: v.total.update(table, v.total[table].insert(player)),
    }
}

/// `v` with `player` no longer a potential player of game `g`.
pub open spec fn drop_view(v: StateView, g: int, player: int) -> StateView {
    StateView { potential: v.potential.update(g, v.potential[g].remove(player)), ..v }
}

/// The players who may still sit at game `g` of `v` and do not sit there yet.
pub open spec fn open_seats_view(v: StateView, g: int) -> Set<int> {
    v.potential[g].difference(v.played[g])
}

/// Looks at player `q` for the forced filling of `table` in `round`: one who
/// may sit there and has played with none of those there is placed, one who
/// may sit there but has is dropped, and anyone else changes nothing.
pub open spec fn forced_look(v: StateView, round: int, table: int, q: int) -> StateView {
    let g = game(round, table);
    if open_seats_view(v, g).contains(q) {
        if v.with[q].disjoint(v.played[g]) {
            place_view(v, round, table, q)
        } else {
            drop_view(v, g, q)
        }
    } else {
        v
    }
}

/// The forced filling of `table` in `round`, after looking at the players
/// below `k` in order.
pub open spec fn forced_pass(v: StateView, round: int, table: int, k: nat) -> StateView
    decreases k,
{
    if k == 0 {
        v
    } else {
        forced_look(forced_pass(v, round, table, (k - 1) as nat), round, table, k - 1)
    }
}

/// Visits bit `b` of the tables to explore in the walk of a step. The walk's
/// state is the sets, the table kept to branch on (its count of players, its
/// round and its table), and whether a table has more than four players. A bit
/// that stands for no table is dropped; a table with fewer than four players is
/// filled when it has four potential players, and is otherwise kept to branch
/// on when it has fewer players than the table kept so far; a full table is
/// closed and dropped; a table with more than four players ends the walk.
pub open spec fn walk_visit(st: (StateView, Option<(int, int, int)>, bool), b: int) -> (
    StateView,
    Option<(int, int, int)>,
    bool,
) {
    let (v, low, over) = st;
    let round = b / 8;
    let table = b % 8;
    if !(round < ROUND_COUNT && table < TABLE_COUNT) {
        (StateView { explore: v.explore.remove(b), ..v }, low, over)
    } else {
        let g = game(round, table);
        let fixed = v.played[g].len() as int;
        if fixed < PLAYERS_PER_TABLE {
            if v.potential[g].len() == PLAYERS_PER_TABLE {
                (forced_pass(v, round, table, 64), low, over)
            } else if low is None || fixed < low->Some_0.0 {
                (v, Some((fixed, round, table)), over)
            } else {
                st
            }
        } else if fixed == PLAYERS_PER_TABLE {
            (
                StateView {
                    explore: v.explore.remove(b),
                    open: v.open - 1,
                    potential: v.potential.update(g, v.played[g]),
                    ..v
                },
                low,
                over,
            )
        } else {
            (v, low, true)
        }
    }
}

/// The walk of a step over the bits of `bits` below `k`, smallest first, from
/// the state `st`; it stops at a table with more than four players.
pub open spec fn walk_upto(st: (StateView, Option<(int, int, int)>, bool), bits: Set<int>, k: nat) -> (
    StateView,
    Option<(int, int, int)>,
    bool,
)
    decreases k,
{
    if k == 0 {
        st
    } else {
        let prev = walk_upto(st, bits, (k - 1) as nat);
        if bits.contains(k - 1) && !prev.2 {
            walk_visit(prev, k - 1)
        } else {
            prev
        }
    }
}

/// Bits not to explore, or after the walk stopped, leave it where it was.
proof fn lemma_walk_skip(st: (StateView, Option<(int, int, int)>, bool), bits: Set<int>, a: nat, b: nat)
    requires
        a <= b,
        forall|j: int| a <= j < b ==> !#[trigger] bits.contains(j) || walk_upto(st, bits, a).2,
    ensures
        walk_upto(st, bits, b) == walk_upto(st, bits, a),
    decreases b - a,
{
    if a < b {
        lemma_walk_skip(st, bits, a, (b - 1) as nat);
    }
}

/// Whether `p` is the first of the open seats of game `g` of `v` who has
/// played with none of the players there.
pub open spec fn first_joiner_view(v: StateView, g: int, p: int) -> bool {
    &&& open_seats_view(v, g).contains(p)
    &&& v.with[p].disjoint(v.played[g])
    &&& forall|q: int| #[trigger] open_seats_view(v, g).contains(q) && q < p ==> !v.with[q].disjoint(v.played[g])
}

/// `v` with the potential players of game `g` set to `s`.
pub open spec fn with_potential(v: StateView, g: int, s: Set<int>) -> StateView {
    StateView { potential: v.potential.update(g, s), ..v }
}

/// What a step does to the state `v`: its result, with the branch's state as
/// sets, and the state it leaves. After the walk: `Err` when a table has more
/// than four players; `Ok(None)` when no table was kept to branch on;
/// otherwise the branch on the table kept, with its first player who may join
/// it, the players before it ruled out; `Err` when no one may join it, all its
/// open seats ruled out.
pub open spec fn step_result(v: StateView) -> (Result<Option<StateView>, ()>, StateView) {
    let w = walk_upto((v, None, false), v.explore, 64);
    if w.2 {
        (Err(()), w.0)
    } else if w.1 is None {
        (Ok(None), w.0)
    } else {
        let (k, round, table) = w.1->Some_0;
        let g = game(round, table);
        let h = w.0;
        if exists|p: int| first_joiner_view(h, g, p) {
            let p = choose|p: int| first_joiner_view(h, g, p);
            let mid = with_potential(
                h,
                g,
                h.potential[g].difference(Set::new(|q: int| open_seats_view(h, g).contains(q) && q < p)),
            );
            (Ok(Some(place_view(mid, round, table, p))), with_potential(mid, g, mid.potential[g].remove(p)))
        } else {
            (Err(()), with_potential(h, g, h.potential[g].difference(open_seats_view(h, g))))
        }
    }
}

/// The table kept to branch on, as the walk of a step records it.
pub open spec fn low_view(lowest: Option<(u32, usize, usize)>) -> Option<(int, int, int)> {
    match lowest {
        Some(l) => Some((l.0 as int, l.1 as int, l.2 as int)),
        None => None,
    }
}

/// Looks at players who may not sit at the table change nothing.
proof fn lemma_forced_skip(v: StateView, round: int, table: int, a: nat, b: nat)
    requires
        a <= b,
        forall|q: int|
            a <= q < b ==> !#[trigger] open_seats_view(forced_pass(v, round, table, a), game(round, table)).contains(q),
    ensures
        forced_pass(v, round, table, b) == forced_pass(v, round, table, a),
    decreases b - a,
{
    if a < b {
        lemma_forced_skip(v, round, table, a, (b - 1) as nat);
    }
}

impl State {
    /// The state as sets.
    pub closed spec fn sview(&self) -> StateView {
        StateView {
            explore: self.explore(),
            placed: self.placed() as int,
            open: self.open_tables() as int,
            played: Seq::new(GAME_COUNT as nat, |g: int| self.played(g / 6, g % 6)),
            potential: Seq::new(GAME_COUNT as nat, |g: int| self.potential(g / 6, g % 6)),
            with: Seq::new(PLAYER_COUNT as nat, |q: int| self.with(q)),
            in_round: Seq::new(ROUND_COUNT as nat, |r: int| self.in_round(r)),
            total: Seq::new(TABLE_COUNT as nat, |t: int| self.table_total(t)),
        }
    }

    /// A placement acts on the sets as `place_view` says.
    proof fn lemma_placement_view(a: State, b: State, round: int, table: int, player: int)
        requires
            0 <= round < ROUND_COUNT,
            0 <= table < TABLE_COUNT,
            0 <= player < PLAYER_COUNT,
            Self::placement(a, b, round, table, player),
        ensures
            b.sview() == place_view(a.sview(), round, table, player),
    {
        let va = a.sview();
        let vb = b.sview();
        let w = place_view(va, round, table, player);
        let g0 = game(round, table);
        assert(g0 / 6 == round && g0 % 6 == table);
        assert forall|g: int| 0 <= g < GAME_COUNT implies #[trigger] vb.played[g] == w.played[g] && vb.potential[g]
            == w.potential[g] by {
            assert(0 <= g / 6 < ROUND_COUNT && 0 <= g % 6 < TABLE_COUNT);
            assert(game(g / 6, g % 6) == g);
            if g / 6 == round && g % 6 == table {
                assert(g == g0);
            }
            if g == g0 {
                assert(g / 6 == round && g % 6 == table);
            }
            assert(vb.potential[g] == b.potential(g / 6, g % 6));
            assert(vb.played[g] == b.played(g / 6, g % 6));
            assert(va.with[player] == a.with(player));
            assert(va.potential[g] == a.potential(g / 6, g % 6));
        }
        assert(vb.played =~= w.played);
        assert(vb.potential =~= w.potential);
        assert(vb.with =~= w.with);
        assert(vb.in_round =~= w.in_round);
        assert(vb.total =~= w.total);
        assert(vb =~= w);
    }

    /// Dropping a potential player of one game acts on the sets as
    /// `drop_view` says.
    proof fn lemma_drop_view(a: State, b: State, g: int, player: int)
        requires
            0 <= g < GAME_COUNT,
            Self::same_but_potential(a, b, g / 6, g % 6),
            b.potential(g / 6, g % 6) == a.potential(g / 6, g % 6).remove(player),
        ensures
            b.sview() == drop_view(a.sview(), g, player),
    {
        let va = a.sview();
        let vb = b.sview();
        let w = drop_view(va, g, player);
        assert forall|h: int| 0 <= h < GAME_COUNT implies #[trigger] vb.played[h] == w.played[h] && vb.potential[h]
            == w.potential[h] by {
            assert(0 <= h / 6 < ROUND_COUNT && 0 <= h % 6 < TABLE_COUNT);
            if h != g {
                assert(h / 6 != g / 6 || h % 6 != g % 6);
            }
        }
        assert(vb.played =~= w.played);
        assert(vb.potential =~= w.potential);
        assert(vb.with =~= w.with);
        assert(vb.in_round =~= w.in_round);
        assert(vb.total =~= w.total);
        assert(vb =~= w);
    }

    /// Changing only the potential players of one table acts on the sets as
    /// `with_potential` says.
    proof fn lemma_potential_view(a: State, b: State, round: int, table: int)
        requires
            0 <= round < ROUND_COUNT,
            0 <= table < TABLE_COUNT,
            Self::same_but_potential(a, b, round, table),
        ensures
            b.sview() == with_potential(a.sview(), game(round, table), b.potential(round, table)),
    {
        let va = a.sview();
        let vb = b.sview();
        let g = game(round, table);
        let w = with_potential(va, g, b.potential(round, table));
        assert(g / 6 == round && g % 6 == table);
        assert forall|h: int| 0 <= h < GAME_COUNT implies #[trigger] vb.played[h] == w.played[h] && vb.potential[h]
            == w.potential[h] by {
            assert(0 <= h / 6 < ROUND_COUNT && 0 <= h % 6 < TABLE_COUNT);
            if h != g {
                assert(h / 6 != round || h % 6 != table);
            }
        }
        assert(vb.played =~= w.played);
        assert(vb.potential =~= w.potential);
        assert(vb.with =~= w.with);
        assert(vb.in_round =~= w.in_round);
        assert(vb.total =~= w.total);
        assert(vb =~= w);
    }

    /// The bits of the tables still to explore.
    pub closed spec fn explore(&self) -> Set<int> {
        word_set(self.tables_to_explore)
    }

    /// How many players have been placed.
    pub closed spec fn placed(&self) -> u8 {
        self.players_played_count
    }

    /// How many tables are still to explore.
    pub closed spec fn open_tables(&self) -> u8 {
        self.empty_table_count
    }

    /// The players at `table` in `round`.
    pub closed spec fn played(&self, round: int, table: int) -> Set<int> {
        word_set(self.played_on_table@[game(round, table)])
    }

    /// The players that may still sit at `table` in `round`, those already
    /// there included.
    pub closed spec fn potential(&self, round: int, table: int) -> Set<int> {
        word_set(self.potential_on_table@[game(round, table)])
    }

    /// The players that `player` has shared a table with.
    pub closed spec fn with(&self, player: int) -> Set<int> {
        word_set(self.players_played_with@[player])
    }

    /// The players placed in `round`.
    pub closed spec fn in_round(&self, round: int) -> Set<int> {
        word_set(self.played_in_round@[round])
    }

    /// The players that have sat at `table` in any round.
    pub closed spec fn table_total(&self, table: int) -> Set<int> {
        word_set(self.played_on_table_total@[table])
    }

    /// The number of players placed in the rounds below `k`.
    pub closed spec fn placed_below(&self, k: int) -> int
        decreases k,
    {
        if k <= 0 {
            0
        } else {
            self.placed_below(k - 1) + self.in_round(k - 1).len()
        }
    }

    /// The invariant of a search state:
    /// - every set holds player numbers only;
    /// - the players at a table may sit there;
    /// - a player placed in a round may sit only at its own table of that round;
    /// - a player at a table in one round may not sit at that table in another;
    /// - the players at a table are placed in its round;
    /// - the placed count counts the players placed in each round;
    /// - the tables to explore are tables, and the open count counts them.
    pub closed spec fn wf(&self) -> bool {
        &&& forall|r: int, t: int|
            0 <= r < ROUND_COUNT && 0 <= t < TABLE_COUNT ==> players_only(#[trigger] self.potential(r, t))
        &&& forall|r: int, t: int|
            0 <= r < ROUND_COUNT && 0 <= t < TABLE_COUNT ==> #[trigger] self.played(r, t).subset_of(
                self.potential(r, t),
            )
        &&& forall|p: int| 0 <= p < PLAYER_COUNT ==> players_only(#[trigger] self.with(p))
        &&& forall|r: int| 0 <= r < ROUND_COUNT ==> players_only(#[trigger] self.in_round(r))
        &&& forall|t: int| 0 <= t < TABLE_COUNT ==> players_only(#[trigger] self.table_total(t))
        &&& forall|r: int, t: int|
            0 <= r < ROUND_COUNT && 0 <= t < TABLE_COUNT ==> #[trigger] self.potential(r, t).intersect(
                self.in_round(r),
            ).subset_of(self.played(r, t))
        &&& forall|r: int, r2: int, t: int|
            0 <= r < ROUND_COUNT && 0 <= r2 < ROUND_COUNT && 0 <= t < TABLE_COUNT && r != r2
                ==> #[trigger] self.played(r2, t).disjoint(#[trigger] self.potential(r, t))
        &&& forall|r: int, t: int|
            0 <= r < ROUND_COUNT && 0 <= t < TABLE_COUNT ==> #[trigger] self.played(r, t).subset_of(
                self.in_round(r),
            )
        &&& self.placed() == self.placed_below(ROUND_COUNT as int)
        &&& self.explore().subset_of(all_tables())
        &&& self.open_tables() == self.explore().len()
    }

    /// `b` is `a` with `player` placed at `table` in `round`.
    pub open spec fn placement(a: State, b: State, round: int, table: int, player: int) -> bool {
        &&& b.placed() == a.placed() + 1
        &&& b.explore() == a.explore()
        &&& b.open_tables() == a.open_tables()
        &&& forall|r: int, t: int|
            0 <= r < ROUND_COUNT && 0 <= t < TABLE_COUNT ==> #[trigger] b.played(r, t) == if r == round && t
                == table {
                a.played(r, t).insert(player)
            } else {
                a.played(r, t)
            }
        &&& forall|r: int, t: int|
            0 <= r < ROUND_COUNT && 0 <= t < TABLE_COUNT ==> #[trigger] b.potential(r, t) == if r == round && t
                == table {
                a.potential(r, t).difference(a.with(player)).insert(player)
            } else if r == round || t == table {
                a.potential(r, t).remove(player)
            } else {
                a.potential(r, t)
            }
        &&& forall|q: int| 0 <= q < PLAYER_COUNT ==> #[trigger] b.with(q) == if q == player {
                a.with(q).union(a.played(round, table))
            } else if a.played(round, table).contains(q) {
                a.with(q).insert(player)
            } else {
                a.with(q)
            }
        &&& forall|r: int| 0 <= r < ROUND_COUNT ==> #[trigger] b.in_round(r) == if r == round {
                a.in_round(r).insert(player)
            } else {
                a.in_round(r)
            }
        &&& forall|t: int| 0 <= t < TABLE_COUNT ==> #[trigger] b.table_total(t) == if t == table {
                a.table_total(t).insert(player)
            } else {
                a.table_total(t)
            }
    }
}

/// The positions of the set bits of a word are finitely many, all below 64.
proof fn lemma_word_set_finite(w: u64)
    ensures
        word_set(w).finite(),
        word_set(w).subset_of(vstd::set_lib::set_int_range(0, 64)),
{
    vstd::set_lib::lemma_int_range(0, 64);
    assert(word_set(w).subset_of(vstd::set_lib::set_int_range(0, 64)));
    vstd::set_lib::lemma_len_subset(word_set(w), vstd::set_lib::set_int_range(0, 64));
}

/// A set of player numbers has at most one member per player.
proof fn lemma_players_len(w: u64)
    requires
        players_only(word_set(w)),
    ensures
        word_set(w).finite(),
        word_set(w).len() <= PLAYER_COUNT,
{
    lemma_word_set_finite(w);
    vstd::set_lib::lemma_int_range(0, PLAYER_COUNT as int);
    assert(word_set(w).subset_of(vstd::set_lib::set_int_range(0, PLAYER_COUNT as int)));
    vstd::set_lib::lemma_len_subset(word_set(w), vstd::set_lib::set_int_range(0, PLAYER_COUNT as int));
}

impl State {
    /// The placed count is at most all players in every round.
    proof fn lemma_placed_below_bound(&self, k: int)
        requires
            0 <= k <= ROUND_COUNT,
            forall|r: int| 0 <= r < ROUND_COUNT ==> players_only(#[trigger] self.in_round(r)),
        ensures
            0 <= self.placed_below(k) <= k * PLAYER_COUNT,
        decreases k,
    {
        if k > 0 {
            self.lemma_placed_below_bound(k - 1);
            assert(players_only(self.in_round(k - 1)));
            lemma_players_len(self.played_in_round@[k - 1]);
        }
    }

    /// Adding a player that is new to `round` raises the placed count by one.
    proof fn lemma_placed_below_insert(a: State, b: State, round: int, player: int, k: int)
        requires
            0 <= round < ROUND_COUNT,
            0 <= k <= ROUND_COUNT,
            !a.in_round(round).contains(player),
            forall|r: int| 0 <= r < ROUND_COUNT ==> #[trigger] b.in_round(r) == if r == round {
                a.in_round(r).insert(player)
            } else {
                a.in_round(r)
            },
        ensures
            b.placed_below(k) == a.placed_below(k) + if round < k {
                1int
            } else {
                0int
            },
        decreases k,
    {
        if k > 0 {
            Self::lemma_placed_below_insert(a, b, round, player, k - 1);
            lemma_word_set_finite(a.played_in_round@[k - 1]);
            assert(b.in_round(k - 1) == if k - 1 == round {
                a.in_round(k - 1).insert(player)
            } else {
                a.in_round(k - 1)
            });
        }
    }

    /// Whether `player` has shared no table with the players at `table` in
    /// `round`.
    fn can_place_player_on_table(&self, round: usize, table: usize, player: usize) -> (r: bool)
        requires
            round < ROUND_COUNT,
            table < TABLE_COUNT,
            player < PLAYER_COUNT,
        ensures
            r == self.with(player as int).disjoint(self.played(round as int, table as int)),
    {
        let r = self.players_played_with[player] & self.played_on_table[round * TABLE_COUNT + table] == 0;
        proof {
            lemma_bit_ops();
            let w = self.players_played_with@[player as int];
            let q = self.played_on_table@[game(round as int, table as int)];
            crate::bits::lemma_zero_iff_no_bits(w & q);
            if r {
                assert forall|i: int| self.with(player as int).contains(i) implies !self.played(round as int, table as int).contains(i) by {
                    assert(!bit(w & q, i));
                }
            } else {
                let i = choose|i: int| bit(w & q, i);
                assert(self.with(player as int).contains(i) && self.played(round as int, table as int).contains(i));
            }
        }
        r
    }

    /// Places `player` at `table` in `round`.
    fn apply_player(&mut self, round: usize, table: usize, player: usize)
        requires
            old(self).wf(),
            round < ROUND_COUNT,
            table < TABLE_COUNT,
            player < PLAYER_COUNT,
            old(self).potential(round as int, table as int).contains(player as int),
            !old(self).played(round as int, table as int).contains(player as int),
            old(self).with(player as int).disjoint(old(self).played(round as int, table as int)),
        ensures
            final(self).wf(),
            Self::placement(*old(self), *final(self), round as int, table as int, player as int),
    {
        let ghost a = *self;
        let g = round * TABLE_COUNT + table;
        proof {
            lemma_bit_ops();
            a.lemma_placed_below_bound(ROUND_COUNT as int);
            assert(a.potential(round as int, table as int).intersect(a.in_round(round as int)).subset_of(
                a.played(round as int, table as int),
            ));
            assert(!a.in_round(round as int).contains(player as int));
            assert(a.played(round as int, table as int).subset_of(a.potential(round as int, table as int)));
            assert(players_only(a.potential(round as int, table as int)));
        }
        self.players_played_count = self.players_played_count + 1;
        let player_mask: u64 = 1u64 << (player as u64);
        let remove_player_mask: u64 = !player_mask;
        let mut r2: usize = 0;
        while r2 < ROUND_COUNT
            invariant
                r2 <= ROUND_COUNT,
                table < TABLE_COUNT,
                self.players_played_count == a.players_played_count + 1,
                self.tables_to_explore == a.tables_to_explore,
                self.empty_table_count == a.empty_table_count,
                self.players_played_with == a.players_played_with,
                self.played_in_round == a.played_in_round,
                self.played_on_table == a.played_on_table,
                self.played_on_table_total == a.played_on_table_total,
                forall|i: int|
                    0 <= i < GAME_COUNT ==> #[trigger] self.potential_on_table@[i] == if i % 6 == table && i / 6
                        < r2 {
                        a.potential_on_table@[i] & remove_player_mask
                    } else {
                        a.potential_on_table@[i]
                    },
            decreases ROUND_COUNT - r2,
        {
            let gi = r2 * TABLE_COUNT + table;
            self.potential_on_table[gi] = self.potential_on_table[gi] & remove_player_mask;
            r2 = r2 + 1;
        }
        let ghost pot1 = self.potential_on_table@;
        let mut t2: usize = 0;
        while t2 < TABLE_COUNT
            invariant
                t2 <= TABLE_COUNT,
                round < ROUND_COUNT,
                self.players_played_count == a.players_played_count + 1,
                self.tables_to_explore == a.tables_to_explore,
                self.empty_table_count == a.empty_table_count,
                self.players_played_with == a.players_played_with,
                self.played_in_round == a.played_in_round,
                self.played_on_table == a.played_on_table,
                self.played_on_table_total == a.played_on_table_total,
                forall|i: int|
                    0 <= i < GAME_COUNT ==> #[trigger] self.potential_on_table@[i] == if i / 6 == round && i % 6
                        < t2 {
                        pot1[i] & remove_player_mask
                    } else {
                        pot1[i]
                    },
            decreases TABLE_COUNT - t2,
        {
            let gi = round * TABLE_COUNT + t2;
            self.potential_on_table[gi] = self.potential_on_table[gi] & remove_player_mask;
            t2 = t2 + 1;
        }
        self.played_in_round[round] = self.played_in_round[round] | player_mask;
        self.played_on_table_total[table] = self.played_on_table_total[table] | player_mask;
        let mut other_players = self.played_on_table[g];
        self.potential_on_table[g] = self.potential_on_table[g] & !self.players_played_with[player];
        self.players_played_with[player] = self.players_played_with[player] | other_players;
        let ghost with1 = self.players_played_with@;
        let ghost pot2 = self.potential_on_table;
        let ghost round2 = self.played_in_round;
        let ghost total2 = self.played_on_table_total;
        while other_players != 0
            invariant
                self.potential_on_table == pot2,
                self.played_in_round == round2,
                self.played_on_table_total == total2,
                player < PLAYER_COUNT,
                g < GAME_COUNT,
                g == game(round as int, table as int),
                player_mask == 1u64 << (player as u64),
                players_only(word_set(a.played_on_table@[g as int])),
                word_set(other_players).subset_of(word_set(a.played_on_table@[g as int])),
                self.players_played_with@.len() == PLAYER_COUNT,
                forall|q: int|
                    0 <= q < PLAYER_COUNT ==> #[trigger] self.players_played_with@[q] == if bit(
                        a.played_on_table@[g as int],
                        q,
                    ) && !bit(other_players, q) {
                        with1[q] | player_mask
                    } else {
                        with1[q]
                    },
                self.players_played_count == a.players_played_count + 1,
                self.tables_to_explore == a.tables_to_explore,
                self.empty_table_count == a.empty_table_count,
                self.played_on_table == a.played_on_table,
            decreases other_players,
        {
            proof {
                lemma_bit_ops();
                lemma_trailing_zeros(other_players);
            }
            let trailing_zeros = other_players.trailing_zeros() as usize;
            proof {
                lemma_clear_bit_smaller(other_players, trailing_zeros as u64);
                assert(word_set(a.played_on_table@[g as int]).contains(trailing_zeros as int));
            }
            other_players = other_players & !(1u64 << (trailing_zeros as u64));
            self.players_played_with[trailing_zeros] = self.players_played_with[trailing_zeros] | player_mask;
        }
        self.potential_on_table[g] = self.potential_on_table[g] | player_mask;
        self.played_on_table[g] = self.played_on_table[g] | player_mask;
        proof {
            let gg = game(round as int, table as int);
            assert(gg / 6 == round && gg % 6 == table);
            assert forall|i: int| 0 <= i < GAME_COUNT implies #[trigger] self.potential_on_table@[i] == if i == game(
                round as int,
                table as int,
            ) {
                (((a.potential_on_table@[i] & !(1u64 << (player as u64))) & !(1u64 << (player as u64)))
                    & !a.players_played_with@[player as int]) | (1u64 << (player as u64))
            } else if i % 6 == table || i / 6 == round {
                a.potential_on_table@[i] & !(1u64 << (player as u64))
            } else {
                a.potential_on_table@[i]
            } by {
                assert(0 <= i / 6 < 6);
                if i % 6 == table && i / 6 == round {
                    assert(i == gg);
                }
            }
            self.lemma_apply_sets(a, round as int, table as int, player as int);
        }
    }
}

impl State {
    /// The word-level effect of placing `player` at `table` in `round` is the
    /// set-level placement, and keeps the invariant.
    proof fn lemma_apply_sets(&self, a: State, round: int, table: int, player: int)
        requires
            a.wf(),
            0 <= round < ROUND_COUNT,
            0 <= table < TABLE_COUNT,
            0 <= player < PLAYER_COUNT,
            a.potential(round, table).contains(player),
            !a.played(round, table).contains(player),
            a.with(player).disjoint(a.played(round, table)),
            self.players_played_count == a.players_played_count + 1,
            self.tables_to_explore == a.tables_to_explore,
            self.empty_table_count == a.empty_table_count,
            forall|i: int|
                0 <= i < GAME_COUNT ==> #[trigger] self.played_on_table@[i] == if i == game(round, table) {
                    a.played_on_table@[i] | (1u64 << (player as u64))
                } else {
                    a.played_on_table@[i]
                },
            forall|i: int|
                0 <= i < GAME_COUNT ==> #[trigger] self.potential_on_table@[i] == if i == game(round, table) {
                    (((a.potential_on_table@[i] & !(1u64 << (player as u64))) & !(1u64 << (player as u64)))
                        & !a.players_played_with@[player]) | (1u64 << (player as u64))
                } else if i % 6 == table || i / 6 == round {
                    a.potential_on_table@[i] & !(1u64 << (player as u64))
                } else {
                    a.potential_on_table@[i]
                },
            forall|r: int|
                0 <= r < ROUND_COUNT ==> #[trigger] self.played_in_round@[r] == if r == round {
                    a.played_in_round@[r] | (1u64 << (player as u64))
                } else {
                    a.played_in_round@[r]
                },
            forall|t: int|
                0 <= t < TABLE_COUNT ==> #[trigger] self.played_on_table_total@[t] == if t == table {
                    a.played_on_table_total@[t] | (1u64 << (player as u64))
                } else {
                    a.played_on_table_total@[t]
                },
            forall|q: int|
                0 <= q < PLAYER_COUNT ==> #[trigger] self.players_played_with@[q] == if q == player {
                    a.players_played_with@[q] | a.played_on_table@[game(round, table)]
                } else if bit(a.played_on_table@[game(round, table)], q) {
                    a.players_played_with@[q] | (1u64 << (player as u64))
                } else {
                    a.players_played_with@[q]
                },
        ensures
            self.wf(),
            Self::placement(a, *self, round, table, player),
    {
        lemma_bit_ops();
        let m = 1u64 << (player as u64);
        assert forall|r: int, t: int| 0 <= r < ROUND_COUNT && 0 <= t < TABLE_COUNT implies #[trigger] self.played(r, t)
            == if r == round && t == table {
            a.played(r, t).insert(player)
        } else {
            a.played(r, t)
        } by {
            let i = game(r, t);
            assert(i % 6 == t && i / 6 == r);
            assert(self.played(r, t) =~= if r == round && t == table {
                a.played(r, t).insert(player)
            } else {
                a.played(r, t)
            });
        }
        assert forall|r: int, t: int| 0 <= r < ROUND_COUNT && 0 <= t < TABLE_COUNT implies #[trigger] self.potential(r, t)
            == if r == round && t == table {
            a.potential(r, t).difference(a.with(player)).insert(player)
        } else if r == round || t == table {
            a.potential(r, t).remove(player)
        } else {
            a.potential(r, t)
        } by {
            let i = game(r, t);
            assert(i % 6 == t && i / 6 == r);
            assert(self.potential(r, t) =~= if r == round && t == table {
                a.potential(r, t).difference(a.with(player)).insert(player)
            } else if r == round || t == table {
                a.potential(r, t).remove(player)
            } else {
                a.potential(r, t)
            });
        }
        assert forall|q: int| 0 <= q < PLAYER_COUNT implies #[trigger] self.with(q) == if q == player {
            a.with(q).union(a.played(round, table))
        } else if a.played(round, table).contains(q) {
            a.with(q).insert(player)
        } else {
            a.with(q)
        } by {
            assert(self.with(q) =~= if q == player {
                a.with(q).union(a.played(round, table))
            } else if a.played(round, table).contains(q) {
                a.with(q).insert(player)
            } else {
                a.with(q)
            });
        }
        assert forall|r: int| 0 <= r < ROUND_COUNT implies #[trigger] self.in_round(r) == if r == round {
            a.in_round(r).insert(player)
        } else {
            a.in_round(r)
        } by {
            assert(self.in_round(r) =~= if r == round {
                a.in_round(r).insert(player)
            } else {
                a.in_round(r)
            });
        }
        assert forall|t: int| 0 <= t < TABLE_COUNT implies #[trigger] self.table_total(t) == if t == table {
            a.table_total(t).insert(player)
        } else {
            a.table_total(t)
        } by {
            assert(self.table_total(t) =~= if t == table {
                a.table_total(t).insert(player)
            } else {
                a.table_total(t)
            });
        }
        assert(a.potential(round, table).intersect(a.in_round(round)).subset_of(a.played(round, table)));
        assert(!a.in_round(round).contains(player));
        Self::lemma_placed_below_insert(a, *self, round, player, ROUND_COUNT as int);
        assert(self.explore() == a.explore());
        // the invariant
        assert forall|r: int, t: int| 0 <= r < ROUND_COUNT && 0 <= t < TABLE_COUNT implies #[trigger] self.played(r, t).subset_of(
            self.potential(r, t),
        ) by {
            assert(a.played(r, t).subset_of(a.potential(r, t)));
            if r == round && t == table {
            } else if r == round {
                assert(a.played(r, t).subset_of(a.in_round(r)));
            } else if t == table {
                assert(a.played(r, t).disjoint(a.potential(round, table)));
            }
        }
        assert forall|r: int, t: int| 0 <= r < ROUND_COUNT && 0 <= t < TABLE_COUNT implies #[trigger] self.potential(r, t).intersect(
            self.in_round(r),
        ).subset_of(self.played(r, t)) by {
            assert(a.potential(r, t).intersect(a.in_round(r)).subset_of(a.played(r, t)));
        }
        assert forall|r: int, r2: int, t: int|
            0 <= r < ROUND_COUNT && 0 <= r2 < ROUND_COUNT && 0 <= t < TABLE_COUNT && r != r2
                implies #[trigger] self.played(r2, t).disjoint(#[trigger] self.potential(r, t)) by {
            assert(a.played(r2, t).disjoint(a.potential(r, t)));
            if r2 == round && t == table {
                assert(a.played(r, t).disjoint(a.potential(r2, t)));
            }
            if r == round && t == table {
                assert(a.played(r2, t).disjoint(a.potential(r, t)));
            }
        }
        assert forall|r: int, t: int| 0 <= r < ROUND_COUNT && 0 <= t < TABLE_COUNT implies #[trigger] self.played(r, t).subset_of(
            self.in_round(r),
        ) by {
            assert(a.played(r, t).subset_of(a.in_round(r)));
        }
        assert forall|r: int, t: int| 0 <= r < ROUND_COUNT && 0 <= t < TABLE_COUNT implies players_only(#[trigger] self.potential(r, t)) by {
            assert(players_only(a.potential(r, t)));
        }
        assert forall|p: int| 0 <= p < PLAYER_COUNT implies players_only(#[trigger] self.with(p)) by {
            assert(players_only(a.with(p)));
            assert(players_only(a.potential(round, table)));
            assert(a.played(round, table).subset_of(a.potential(round, table)));
        }
        assert forall|r: int| 0 <= r < ROUND_COUNT implies players_only(#[trigger] self.in_round(r)) by {
            assert(players_only(a.in_round(r)));
        }
        assert forall|t: int| 0 <= t < TABLE_COUNT implies players_only(#[trigger] self.table_total(t)) by {
            assert(players_only(a.table_total(t)));
        }
    }
}

/// The numbers from `lo` up to but not including `hi`.
pub open spec fn span(lo: int, hi: int) -> Set<int> {
    Set::new(|i: int| lo <= i < hi)
}

/// The players who share player `q`'s table in the first round: the others of
/// its group of four.
pub open spec fn table_mates(q: int) -> Set<int> {
    span(4 * (q / 4), 4 * (q / 4) + 4).remove(q)
}

proof fn lemma_shift3(x: usize)
    by (bit_vector)
    requires
        x < 8,
    ensures
        x << 3usize == x * 8,
{
}

impl State {
    /// No player placed in any round means none placed at all.
    proof fn lemma_placed_below_zero(&self, k: int)
        requires
            0 <= k <= ROUND_COUNT,
            forall|r: int| 0 <= r < ROUND_COUNT ==> #[trigger] self.in_round(r) == Set::<int>::empty(),
        ensures
            self.placed_below(k) == 0,
        decreases k,
    {
        if k > 0 {
            self.lemma_placed_below_zero(k - 1);
            assert(self.in_round(k - 1) == Set::<int>::empty());
        }
    }

    /// The start of the search: every table of every round to explore, and
    /// round one seated in order, players `4t` to `4t + 3` at table `t`.
    pub fn new() -> (r: Self)
        ensures
            r.wf(),
            r.explore() == all_tables(),
            r.open_tables() == GAME_COUNT,
            r.placed() == PLAYER_COUNT,
            forall|t: int| 0 <= t < TABLE_COUNT ==> #[trigger] r.played(0, t) == span(4 * t, 4 * t + 4),
            forall|rd: int, t: int|
                1 <= rd < ROUND_COUNT && 0 <= t < TABLE_COUNT ==> #[trigger] r.played(rd, t) == Set::<int>::empty(),
            forall|q: int| 0 <= q < PLAYER_COUNT ==> #[trigger] r.with(q) == table_mates(q),
    {
        let mut tables_to_explore: u64 = 0;
        let mut potential_on_table: [u64; GAME_COUNT] = [0u64; 36];
        proof {
            assert(1u64 << 24u64 == 0x100_0000u64) by (bit_vector);
        }
        let full: u64 = (1u64 << 24u64) - 1;
        proof {
            lemma_bit_ops();
            lemma_low_mask(24);
            assert(word_set(tables_to_explore) =~= Set::<int>::empty());
            assert(word_set(tables_to_explore) =~= Set::new(|b: int| valid_bit(b) && b / 8 < 0));
        }
        let mut round: usize = 0;
        while round < ROUND_COUNT
            invariant
                round <= ROUND_COUNT,
                full == ((1u64 << 24u64) - 1u64) as u64,
                word_set(tables_to_explore) == Set::new(|b: int| valid_bit(b) && b / 8 < round),
                word_set(tables_to_explore).finite(),
                word_set(tables_to_explore).len() == round * 6,
                forall|i: int| 0 <= i < GAME_COUNT ==> #[trigger] potential_on_table@[i] == if i / 6 < round {
                    full
                } else {
                    0u64
                },
            decreases ROUND_COUNT - round,
        {
            let mut table: usize = 0;
            while table < TABLE_COUNT
                invariant
                    round < ROUND_COUNT,
                    table <= TABLE_COUNT,
                    full == ((1u64 << 24u64) - 1u64) as u64,
                    word_set(tables_to_explore) == Set::new(
                        |b: int| valid_bit(b) && (b / 8 < round || (b / 8 == round && b % 8 < table)),
                    ),
                    word_set(tables_to_explore).finite(),
                    word_set(tables_to_explore).len() == round * 6 + table,
                    forall|i: int| 0 <= i < GAME_COUNT ==> #[trigger] potential_on_table@[i] == if i / 6 < round
                        || (i / 6 == round && i % 6 < table) {
                        full
                    } else {
                        0u64
                    },
                decreases TABLE_COUNT - table,
            {
                proof {
                    lemma_shift3(round);
                    lemma_bit_ops();
                }
                let b: usize = (round << TO_EXPLORE_SHIFT) + table;
                let ghost before = word_set(tables_to_explore);
                tables_to_explore = tables_to_explore | (1u64 << (b as u64));
                proof {
                    assert(b / 8 == round && b % 8 == table);
                    assert(!before.contains(b as int));
                    assert(word_set(tables_to_explore) =~= before.insert(b as int));
                    assert(word_set(tables_to_explore) =~= Set::new(
                        |x: int| valid_bit(x) && (x / 8 < round || (x / 8 == round && x % 8 < table + 1)),
                    ));
                }
                potential_on_table[round * TABLE_COUNT + table] = full;
                proof {
                    assert forall|i: int| 0 <= i < GAME_COUNT implies #[trigger] potential_on_table@[i] == if i / 6
                        < round || (i / 6 == round && i % 6 < table + 1) {
                        full
                    } else {
                        0u64
                    } by {
                        if i == round * 6 + table {
                            assert(i / 6 == round && i % 6 == table);
                        }
                    }
                }
                table = table + 1;
            }
            proof {
                assert(word_set(tables_to_explore) =~= Set::new(|b: int| valid_bit(b) && b / 8 < round + 1));
            }
            round = round + 1;
        }
        let mut state = Self {
            tables_to_explore,
            players_played_count: 0,
            empty_table_count: 36,
            players_played_with: [0u64; 24],
            played_in_round: [0u64; 6],
            played_on_table: [0u64; 36],
            potential_on_table,
            played_on_table_total: [0u64; 6],
        };
        proof {
            lemma_bit_ops();
            assert(state.explore() =~= all_tables());
            assert forall|rd: int| 0 <= rd < ROUND_COUNT implies #[trigger] state.in_round(rd) == Set::<int>::empty() by {
                assert(state.in_round(rd) =~= Set::<int>::empty());
            }
            state.lemma_placed_below_zero(ROUND_COUNT as int);
            assert forall|rd: int, t: int| 0 <= rd < ROUND_COUNT && 0 <= t < TABLE_COUNT implies #[trigger] state.potential(rd, t)
                == span(0, 24) && #[trigger] state.played(rd, t) == Set::<int>::empty() by {
                assert(game(rd, t) / 6 == rd);
                assert(state.potential(rd, t) =~= span(0, 24));
                assert(state.played(rd, t) =~= Set::<int>::empty());
            }
            assert forall|q: int| 0 <= q < PLAYER_COUNT implies #[trigger] state.with(q) == Set::<int>::empty() by {
                assert(state.with(q) =~= Set::<int>::empty());
            }
            assert forall|t: int| 0 <= t < TABLE_COUNT implies #[trigger] state.table_total(t) == Set::<int>::empty() by {
                assert(state.table_total(t) =~= Set::<int>::empty());
            }
            assert(state.wf());
        }
        let mut player: usize = 0;
        let mut table: usize = 0;
        while table < TABLE_COUNT
            invariant
                table <= TABLE_COUNT,
                player == 4 * table,
                state.wf(),
                state.explore() == all_tables(),
                state.open_tables() == GAME_COUNT,
                state.placed() == player,
                forall|t: int| 0 <= t < table ==> #[trigger] state.played(0, t) == span(4 * t, 4 * t + 4),
                forall|t: int| table <= t < TABLE_COUNT ==> #[trigger] state.played(0, t) == Set::<int>::empty(),
                forall|rd: int, t: int|
                    1 <= rd < ROUND_COUNT && 0 <= t < TABLE_COUNT ==> #[trigger] state.played(rd, t) == Set::<
                        int,
                    >::empty(),
                forall|q: int| player <= q < PLAYER_COUNT ==> #[trigger] state.with(q) == Set::<int>::empty(),
                forall|q: int| 0 <= q < player ==> #[trigger] state.with(q) == table_mates(q),
                forall|q: int, t: int|
                    player <= q < PLAYER_COUNT && 0 <= t < TABLE_COUNT ==> #[trigger] state.potential(0, t).contains(q),
                forall|q: int| player <= q < PLAYER_COUNT ==> !#[trigger] state.in_round(0).contains(q),
            decreases TABLE_COUNT - table,
        {
            let mut k: usize = 0;
            while k < PLAYERS_PER_TABLE
                invariant
                    table < TABLE_COUNT,
                    k <= PLAYERS_PER_TABLE,
                    player == 4 * table + k,
                    state.wf(),
                    state.explore() == all_tables(),
                    state.open_tables() == GAME_COUNT,
                    state.placed() == player,
                    forall|t: int| 0 <= t < table ==> #[trigger] state.played(0, t) == span(4 * t, 4 * t + 4),
                    state.played(0, table as int) == span(4 * table, player as int),
                    forall|t: int| table < t < TABLE_COUNT ==> #[trigger] state.played(0, t) == Set::<int>::empty(),
                    forall|rd: int, t: int|
                        1 <= rd < ROUND_COUNT && 0 <= t < TABLE_COUNT ==> #[trigger] state.played(rd, t) == Set::<
                            int,
                        >::empty(),
                    forall|q: int| player <= q < PLAYER_COUNT ==> #[trigger] state.with(q) == Set::<int>::empty(),
                    forall|q: int| 0 <= q < 4 * table ==> #[trigger] state.with(q) == table_mates(q),
                    forall|q: int| 4 * table <= q < player ==> #[trigger] state.with(q) == span(4 * table, player as int).remove(q),
                    forall|q: int, t: int|
                        player <= q < PLAYER_COUNT && 0 <= t < TABLE_COUNT ==> #[trigger] state.potential(0, t).contains(
                            q,
                        ),
                    forall|q: int| player <= q < PLAYER_COUNT ==> !#[trigger] state.in_round(0).contains(q),
                decreases PLAYERS_PER_TABLE - k,
            {
                proof {
                    assert(state.potential(0, table as int).contains(player as int));
                    assert(!state.in_round(0).contains(player as int));
                    assert(state.played(0, table as int).subset_of(state.in_round(0)));
                    assert(state.with(player as int) == Set::<int>::empty());
                }
                let ghost before = state;
                state.apply_player(0, table, player);
                proof {
                    assert(state.played(0, table as int) =~= span(4 * table, player + 1));
                    assert forall|t: int| 0 <= t < table implies #[trigger] state.played(0, t) == span(4 * t, 4 * t + 4) by {
                        assert(before.played(0, t) == span(4 * t, 4 * t + 4));
                    }
                    assert forall|t: int| table < t < TABLE_COUNT implies #[trigger] state.played(0, t) == Set::<int>::empty() by {
                        assert(before.played(0, t) == Set::<int>::empty());
                    }
                    assert forall|rd: int, t: int| 1 <= rd < ROUND_COUNT && 0 <= t < TABLE_COUNT implies #[trigger] state.played(rd, t)
                        == Set::<int>::empty() by {
                        assert(before.played(rd, t) == Set::<int>::empty());
                    }
                    assert forall|q: int| player + 1 <= q < PLAYER_COUNT implies #[trigger] state.with(q) == Set::<int>::empty() by {
                        assert(before.with(q) == Set::<int>::empty());
                        assert(!before.in_round(0).contains(q));
                        assert(before.played(0, table as int).subset_of(before.in_round(0)));
                        assert(!before.played(0, table as int).contains(q));
                    }
                    assert forall|q: int, t: int| player + 1 <= q < PLAYER_COUNT && 0 <= t < TABLE_COUNT implies #[trigger] state.potential(0, t).contains(q) by {
                        assert(before.potential(0, t).contains(q));
                    }
                    assert forall|q: int| player + 1 <= q < PLAYER_COUNT implies !#[trigger] state.in_round(0).contains(q) by {
                        assert(!before.in_round(0).contains(q));
                    }
                    assert(before.played(0, table as int) == span(4 * table, player as int));
                    assert forall|q: int| 0 <= q < 4 * table implies #[trigger] state.with(q) == table_mates(q) by {
                        assert(before.with(q) == table_mates(q));
                        assert(!before.played(0, table as int).contains(q));
                    }
                    assert forall|q: int| 4 * table <= q < player + 1 implies #[trigger] state.with(q) == span(
                        4 * table,
                        player + 1,
                    ).remove(q) by {
                        if q == player {
                            assert(state.with(q) =~= span(4 * table, player + 1).remove(q));
                        } else {
                            assert(before.with(q) == span(4 * table, player as int).remove(q));
                            assert(before.played(0, table as int).contains(q));
                            assert(state.with(q) =~= span(4 * table, player + 1).remove(q));
                        }
                    }
                }
                player = player + 1;
                k = k + 1;
            }
            proof {
                assert(span(4 * table, player as int) == span(4 * table, 4 * table + 4));
                assert forall|q: int| 4 * table <= q < player implies #[trigger] state.with(q) == table_mates(q) by {
                    assert(q / 4 == table);
                }
            }
            table = table + 1;
        }
        state
    }

    /// How many players have been placed.
    pub fn get_players_played_count(&self) -> (r: u8)
        ensures
            r == self.placed(),
    {
        self.players_played_count
    }
}

/// The number of set bits of `w` is the size of its set.
proof fn lemma_pop_len(w: u64)
    ensures
        pop(w, 64) == word_set(w).len(),
        word_set(w).finite(),
{
    lemma_pop_card(w, 64);
    assert(Set::new(|i: int| 0 <= i < 64 && bit(w, i)) =~= word_set(w));
}

/// A set with a member that a subset lacks is larger than the subset.
proof fn lemma_strict_subset_len(a: Set<int>, b: Set<int>, x: int)
    requires
        b.finite(),
        a.subset_of(b),
        b.contains(x),
        !a.contains(x),
    ensures
        a.len() < b.len(),
{
    vstd::set_lib::lemma_len_subset(a, b.remove(x));
}

impl State {
    /// `b` is at least as far along the search as `a`: no table to explore was
    /// added, no player unplaced, and no seat freed.
    pub open spec fn refines(a: State, b: State) -> bool {
        &&& b.explore().subset_of(a.explore())
        &&& a.placed() <= b.placed()
        &&& forall|r: int, t: int|
            #![trigger a.played(r, t)]
            #![trigger b.played(r, t)]
            #![trigger a.potential(r, t)]
            #![trigger b.potential(r, t)]
            0 <= r < ROUND_COUNT && 0 <= t < TABLE_COUNT ==> a.played(r, t).subset_of(b.played(r, t))
                && b.potential(r, t).subset_of(a.potential(r, t))
    }

    /// `b` is `a` with only the seats that may still be filled at `table` in
    /// `round` different.
    pub open spec fn same_but_potential(a: State, b: State, round: int, table: int) -> bool {
        &&& b.explore() == a.explore()
        &&& b.placed() == a.placed()
        &&& b.open_tables() == a.open_tables()
        &&& forall|r: int, t: int|
            0 <= r < ROUND_COUNT && 0 <= t < TABLE_COUNT ==> #[trigger] b.played(r, t) == a.played(r, t)
        &&& forall|r: int, t: int|
            0 <= r < ROUND_COUNT && 0 <= t < TABLE_COUNT && (r != round || t != table) ==> #[trigger] b.potential(
                r,
                t,
            ) == a.potential(r, t)
        &&& forall|q: int| 0 <= q < PLAYER_COUNT ==> #[trigger] b.with(q) == a.with(q)
        &&& forall|r: int| 0 <= r < ROUND_COUNT ==> #[trigger] b.in_round(r) == a.in_round(r)
        &&& forall|t: int| 0 <= t < TABLE_COUNT ==> #[trigger] b.table_total(t) == a.table_total(t)
    }

    /// A table that can never be completed: more than four players, or fewer
    /// with no one left who could join them.
    pub open spec fn dead_table(s: State, round: int, table: int) -> bool {
        &&& 0 <= round < ROUND_COUNT
        &&& 0 <= table < TABLE_COUNT
        &&& (s.played(round, table).len() > PLAYERS_PER_TABLE || (s.played(round, table).len()
            < PLAYERS_PER_TABLE && s.potential(round, table).subset_of(s.played(round, table))))
    }

    proof fn lemma_refines_trans(a: State, b: State, c: State)
        requires
            Self::refines(a, b),
            Self::refines(b, c),
        ensures
            Self::refines(a, c),
    {
        assert forall|r: int, t: int| 0 <= r < ROUND_COUNT && 0 <= t < TABLE_COUNT implies #[trigger] a.played(r, t).subset_of(
            c.played(r, t),
        ) && c.potential(r, t).subset_of(a.potential(r, t)) by {
            assert(a.played(r, t).subset_of(b.played(r, t)) && b.potential(r, t).subset_of(a.potential(r, t)));
            assert(b.played(r, t).subset_of(c.played(r, t)) && c.potential(r, t).subset_of(b.potential(r, t)));
        }
    }

    proof fn lemma_placement_refines(a: State, b: State, round: int, table: int, player: int)
        requires
            Self::placement(a, b, round, table, player),
            0 <= round < ROUND_COUNT,
            0 <= table < TABLE_COUNT,
            a.potential(round, table).contains(player),
        ensures
            Self::refines(a, b),
    {
        assert forall|r: int, t: int| 0 <= r < ROUND_COUNT && 0 <= t < TABLE_COUNT implies #[trigger] a.played(r, t).subset_of(
            b.played(r, t),
        ) && b.potential(r, t).subset_of(a.potential(r, t)) by {
            assert(b.played(r, t) == if r == round && t == table {
                a.played(r, t).insert(player)
            } else {
                a.played(r, t)
            });
            assert(b.potential(r, t) == if r == round && t == table {
                a.potential(r, t).difference(a.with(player)).insert(player)
            } else if r == round || t == table {
                a.potential(r, t).remove(player)
            } else {
                a.potential(r, t)
            });
        }
    }

    /// Narrowing who may still sit at one table, never below who sits there,
    /// keeps the invariant.
    proof fn lemma_wf_narrow(a: State, b: State, g: int, v: u64)
        requires
            a.wf(),
            0 <= g < GAME_COUNT,
            b.tables_to_explore == a.tables_to_explore,
            b.players_played_count == a.players_played_count,
            b.empty_table_count == a.empty_table_count,
            b.players_played_with == a.players_played_with,
            b.played_in_round == a.played_in_round,
            b.played_on_table == a.played_on_table,
            b.played_on_table_total == a.played_on_table_total,
            b.potential_on_table@ == a.potential_on_table@.update(g, v),
            word_set(v).subset_of(word_set(a.potential_on_table@[g])),
            word_set(a.played_on_table@[g]).subset_of(word_set(v)),
        ensures
            b.wf(),
            Self::refines(a, b),
            Self::same_but_potential(a, b, g / 6, g % 6),
    {
        assert forall|r: int, t: int| 0 <= r < ROUND_COUNT && 0 <= t < TABLE_COUNT implies #[trigger] b.potential(r, t)
            == if game(r, t) == g {
            word_set(v)
        } else {
            a.potential(r, t)
        } by {
        }
        assert forall|r: int| 0 <= r < ROUND_COUNT implies #[trigger] b.in_round(r) == a.in_round(r) by {
        }
        assert(b.placed_below(ROUND_COUNT as int) == a.placed_below(ROUND_COUNT as int)) by {
            Self::lemma_placed_below_same(a, b, ROUND_COUNT as int);
        }
        assert forall|r: int, t: int| 0 <= r < ROUND_COUNT && 0 <= t < TABLE_COUNT implies (game(r, t) == g) == (r == g
            / 6 && t == g % 6) by {
        }
        assert forall|r: int, t: int| 0 <= r < ROUND_COUNT && 0 <= t < TABLE_COUNT implies players_only(#[trigger] b.potential(r, t)) by {
            assert(players_only(a.potential(r, t)));
        }
        assert forall|r: int, t: int| 0 <= r < ROUND_COUNT && 0 <= t < TABLE_COUNT implies #[trigger] b.played(r, t).subset_of(
            b.potential(r, t),
        ) by {
            assert(a.played(r, t).subset_of(a.potential(r, t)));
        }
        assert forall|r: int, t: int| 0 <= r < ROUND_COUNT && 0 <= t < TABLE_COUNT implies #[trigger] b.potential(r, t).intersect(
            b.in_round(r),
        ).subset_of(b.played(r, t)) by {
            assert(a.potential(r, t).intersect(a.in_round(r)).subset_of(a.played(r, t)));
        }
        assert forall|r: int, r2: int, t: int|
            0 <= r < ROUND_COUNT && 0 <= r2 < ROUND_COUNT && 0 <= t < TABLE_COUNT && r != r2
                implies #[trigger] b.played(r2, t).disjoint(#[trigger] b.potential(r, t)) by {
            assert(a.played(r2, t).disjoint(a.potential(r, t)));
        }
        assert forall|r: int, t: int| 0 <= r < ROUND_COUNT && 0 <= t < TABLE_COUNT implies #[trigger] b.played(r, t).subset_of(
            b.in_round(r),
        ) by {
            assert(a.played(r, t).subset_of(a.in_round(r)));
        }
        assert forall|p: int| 0 <= p < PLAYER_COUNT implies players_only(#[trigger] b.with(p)) by {
            assert(players_only(a.with(p)));
        }
        assert forall|t: int| 0 <= t < TABLE_COUNT implies players_only(#[trigger] b.table_total(t)) by {
            assert(players_only(a.table_total(t)));
        }
        assert forall|r: int| 0 <= r < ROUND_COUNT implies players_only(#[trigger] b.in_round(r)) by {
            assert(players_only(a.in_round(r)));
        }
        assert forall|r: int, t: int| 0 <= r < ROUND_COUNT && 0 <= t < TABLE_COUNT implies #[trigger] a.played(r, t).subset_of(
            b.played(r, t),
        ) && b.potential(r, t).subset_of(a.potential(r, t)) by {
        }
    }

    proof fn lemma_placed_below_same(a: State, b: State, k: int)
        requires
            forall|r: int| 0 <= r < ROUND_COUNT ==> #[trigger] b.in_round(r) == a.in_round(r),
            0 <= k <= ROUND_COUNT,
        ensures
            b.placed_below(k) == a.placed_below(k),
        decreases k,
    {
        if k > 0 {
            Self::lemma_placed_below_same(a, b, k - 1);
            assert(b.in_round(k - 1) == a.in_round(k - 1));
        }
    }

    /// Dropping a table from the tables to explore, and one from the count,
    /// keeps the invariant.
    proof fn lemma_wf_drop(a: State, b: State, x: int)
        requires
            a.wf(),
            a.explore().contains(x),
            b.explore() == a.explore().remove(x),
            b.empty_table_count == a.empty_table_count - 1,
            b.players_played_count == a.players_played_count,
            b.players_played_with == a.players_played_with,
            b.played_in_round == a.played_in_round,
            b.played_on_table == a.played_on_table,
            b.played_on_table_total == a.played_on_table_total,
            b.potential_on_table == a.potential_on_table,
        ensures
            b.wf(),
            Self::refines(a, b),
    {
        lemma_word_set_finite(a.tables_to_explore);
        assert forall|r: int| 0 <= r < ROUND_COUNT implies #[trigger] b.in_round(r) == a.in_round(r) by {
        }
        Self::lemma_placed_below_same(a, b, ROUND_COUNT as int);
        assert(b.explore().len() == a.explore().len() - 1);
        assert(b.explore().subset_of(all_tables()));
        assert(b.placed() == b.placed_below(ROUND_COUNT as int));
        assert(forall|r: int, t: int| #![trigger b.played(r, t)] b.played(r, t) == a.played(r, t));
        assert(forall|r: int, t: int| #![trigger b.potential(r, t)] b.potential(r, t) == a.potential(r, t));
        assert(forall|q: int| #![trigger b.with(q)] b.with(q) == a.with(q));
        assert(forall|q: int| #![trigger b.table_total(q)] b.table_total(q) == a.table_total(q));
    }
}

impl State {
    /// Fills `table` in `round` from the players that may still sit there:
    /// each in turn, lowest number first, sits down when they have shared no
    /// table with those already there, and is ruled out otherwise.
    fn place_forced(&mut self, round: usize, table: usize)
        requires
            old(self).wf(),
            round < ROUND_COUNT,
            table < TABLE_COUNT,
        ensures
            final(self).wf(),
            Self::refines(*old(self), *final(self)),
            final(self).explore() == old(self).explore(),
            final(self).open_tables() == old(self).open_tables(),
            final(self).potential(round as int, table as int).subset_of(final(self).played(round as int, table as int)),
            forall|r: int, t: int|
                0 <= r < ROUND_COUNT && 0 <= t < TABLE_COUNT && (r != round || t != table) ==> #[trigger] final(self).played(r, t) == old(self).played(r, t),
            final(self).sview() == forced_pass(old(self).sview(), round as int, table as int, 64),
    {
        let ghost a = *self;
        let g = round * TABLE_COUNT + table;
        let mut candidates = self.potential_on_table[g] & !self.played_on_table[g];
        let ghost mut seen: int = 0;
        let ghost gi = game(round as int, table as int);
        proof {
            assert(Self::refines(a, a));
            assert(gi / 6 == round && gi % 6 == table);
        }
        while candidates != 0
            invariant
                self.wf(),
                Self::refines(a, *self),
                self.explore() == a.explore(),
                self.open_tables() == a.open_tables(),
                round < ROUND_COUNT,
                table < TABLE_COUNT,
                g == game(round as int, table as int),
                candidates == self.potential_on_table@[g as int] & !self.played_on_table@[g as int],
                forall|r: int, t: int|
                    0 <= r < ROUND_COUNT && 0 <= t < TABLE_COUNT && (r != round || t != table) ==> #[trigger] self.played(
                        r,
                        t,
                    ) == a.played(r, t),
                gi == g,
                gi / 6 == round && gi % 6 == table,
                0 <= seen <= 64,
                self.sview() == forced_pass(a.sview(), round as int, table as int, seen as nat),
                forall|q: int| #[trigger] word_set(candidates).contains(q) ==> q >= seen,
            decreases pop(candidates, 64),
        {
            proof {
                lemma_bit_ops();
                lemma_trailing_zeros(candidates);
                assert(players_only(self.potential(round as int, table as int)));
            }
            let player = candidates.trailing_zeros() as usize;
            let ghost before = *self;
            let ghost cand_set = word_set(candidates);
            proof {
                assert(cand_set.contains(player as int));
                assert(self.potential(round as int, table as int).contains(player as int));
                let vb = before.sview();
                assert forall|q: int| #[trigger] open_seats_view(vb, gi).contains(q) <==> cand_set.contains(q) by {
                    assert(vb.potential[gi] == before.potential(round as int, table as int));
                    assert(vb.played[gi] == before.played(round as int, table as int));
                }
                assert forall|q: int| seen <= q < player implies !#[trigger] open_seats_view(
                    forced_pass(a.sview(), round as int, table as int, seen as nat),
                    game(round as int, table as int),
                ).contains(q) by {
                    assert(!bit(candidates, q));
                }
                lemma_forced_skip(a.sview(), round as int, table as int, seen as nat, player as nat);
                assert(player < PLAYER_COUNT);
            }
            if self.can_place_player_on_table(round, table, player) {
                self.apply_player(round, table, player);
                proof {
                    Self::lemma_placement_view(before, *self, round as int, table as int, player as int);
                    assert(self.sview() == forced_look(before.sview(), round as int, table as int, player as int));
                    Self::lemma_placement_refines(before, *self, round as int, table as int, player as int);
                    Self::lemma_refines_trans(a, before, *self);
                    assert(self.played(round as int, table as int).contains(player as int));
                    assert forall|r: int, t: int|
                        0 <= r < ROUND_COUNT && 0 <= t < TABLE_COUNT && (r != round || t != table) implies #[trigger] self.played(
                            r,
                            t,
                        ) == a.played(r, t) by {
                        assert(before.played(r, t) == a.played(r, t));
                    }
                }
            } else {
                let v = self.potential_on_table[g] & !(1u64 << (player as u64));
                self.potential_on_table[g] = v;
                proof {
                    assert(word_set(v).subset_of(word_set(before.potential_on_table@[g as int])));
                    assert(word_set(before.played_on_table@[g as int]).subset_of(word_set(v))) by {
                        assert(before.played(round as int, table as int).subset_of(before.potential(round as int, table as int)));
                    }
                    Self::lemma_wf_narrow(before, *self, g as int, v);
                    Self::lemma_refines_trans(a, before, *self);
                    assert(!self.potential(round as int, table as int).contains(player as int));
                    assert(word_set(v) =~= before.potential(round as int, table as int).remove(player as int));
                    Self::lemma_drop_view(before, *self, g as int, player as int);
                    assert(self.sview() == forced_look(before.sview(), round as int, table as int, player as int));
                }
            }
            let next = self.potential_on_table[g] & !self.played_on_table[g];
            proof {
                lemma_bit_ops();
                assert(word_set(next).subset_of(cand_set.remove(player as int))) by {
                    assert(self.potential(round as int, table as int).subset_of(before.potential(round as int, table as int)));
                    assert(before.played(round as int, table as int).subset_of(self.played(round as int, table as int)));
                    assert(self.played(round as int, table as int).contains(player as int) || !self.potential(
                        round as int,
                        table as int,
                    ).contains(player as int));
                    assert forall|i: int| word_set(next).contains(i) implies cand_set.remove(player as int).contains(i) by {
                        assert(self.potential(round as int, table as int).contains(i));
                        assert(!self.played(round as int, table as int).contains(i));
                    }
                }
                lemma_pop_len(next);
                lemma_pop_len(candidates);
                lemma_strict_subset_len(word_set(next), cand_set, player as int);
                seen = player + 1;
            }
            candidates = next;
        }
        proof {
            lemma_bit_ops();
            crate::bits::lemma_zero_iff_no_bits(candidates);
            assert forall|i: int| self.potential(round as int, table as int).contains(i) implies self.played(
                round as int,
                table as int,
            ).contains(i) by {
                assert(!bit(candidates, i));
            }
            let vs = self.sview();
            assert forall|q: int| seen <= q < 64 implies !#[trigger] open_seats_view(
                forced_pass(a.sview(), round as int, table as int, seen as nat),
                game(round as int, table as int),
            ).contains(q) by {
                assert(vs.potential[gi] == self.potential(round as int, table as int));
                assert(vs.played[gi] == self.played(round as int, table as int));
            }
            lemma_forced_skip(a.sview(), round as int, table as int, seen as nat, 64);
        }
    }
}

proof fn lemma_decode_bit(x: u32)
    by (bit_vector)
    requires
        x < 64,
    ensures
        x >> 3u32 == x / 8,
        (x >> 3u32) << 3u32 == (x / 8) * 8,
{
}

impl State {
    /// Whether every table still to explore in `s`, other than `table` in
    /// `round`, with fewer players than it, or as many and an earlier bit,
    /// admits no one beyond those seated.
    pub open spec fn fewest_first(s: State, round: int, table: int) -> bool {
        forall|b: int|
            #[trigger] s.explore().contains(b) && b != round * 8 + table && (s.played(b / 8, b % 8).len() < s.played(
                round,
                table,
            ).len() || (s.played(b / 8, b % 8).len() == s.played(round, table).len() && b < round * 8 + table))
                ==> s.potential(b / 8, b % 8).subset_of(s.played(b / 8, b % 8))
    }

    /// Agreeing but for one table's potential players is transitive.
    proof fn lemma_same_trans(a: State, b: State, c: State, round: int, table: int)
        requires
            Self::same_but_potential(a, b, round, table),
            Self::same_but_potential(b, c, round, table),
        ensures
            Self::same_but_potential(a, c, round, table),
    {
        assert forall|r: int, t: int| 0 <= r < ROUND_COUNT && 0 <= t < TABLE_COUNT implies #[trigger] c.played(r, t) == a.played(r, t) by {
            assert(b.played(r, t) == a.played(r, t));
        }
        assert forall|r: int, t: int|
            0 <= r < ROUND_COUNT && 0 <= t < TABLE_COUNT && (r != round || t != table) implies #[trigger] c.potential(r, t) == a.potential(r, t) by {
            assert(b.potential(r, t) == a.potential(r, t));
        }
        assert forall|q: int| 0 <= q < PLAYER_COUNT implies #[trigger] c.with(q) == a.with(q) by {
            assert(b.with(q) == a.with(q));
        }
        assert forall|r: int| 0 <= r < ROUND_COUNT implies #[trigger] c.in_round(r) == a.in_round(r) by {
            assert(b.in_round(r) == a.in_round(r));
        }
        assert forall|t: int| 0 <= t < TABLE_COUNT implies #[trigger] c.table_total(t) == a.table_total(t) by {
            assert(b.table_total(t) == a.table_total(t));
        }
    }

    /// The players who may still sit at `table` in `round` of `s` and do not
    /// sit there yet.
    pub open spec fn open_seats(s: State, round: int, table: int) -> Set<int> {
        s.potential(round, table).difference(s.played(round, table))
    }

    /// Whether `p` is the first of the open seats of `table` in `round` of `s`
    /// who has played with none of the players there.
    pub open spec fn first_joiner(s: State, round: int, table: int, p: int) -> bool {
        &&& Self::open_seats(s, round, table).contains(p)
        &&& s.with(p).disjoint(s.played(round, table))
        &&& forall|q: int|
            #[trigger] Self::open_seats(s, round, table).contains(q) && q < p ==> !s.with(q).disjoint(
                s.played(round, table),
            )
    }

    /// The open seats of `table` in `round` of `s` below player `p`.
    pub open spec fn seats_below(s: State, round: int, table: int, p: int) -> Set<int> {
        Set::new(|q: int| Self::open_seats(s, round, table).contains(q) && q < p)
    }

    /// Whether `mid` is `w` with the open seats below `p` at `table` in `round`
    /// dropped, and `p` is the first player who may join that table in `w`.
    pub open spec fn joins_first(w: State, mid: State, round: int, table: int, p: int) -> bool {
        &&& Self::first_joiner(w, round, table, p)
        &&& Self::same_but_potential(w, mid, round, table)
        &&& mid.potential(round, table) == w.potential(round, table).difference(Self::seats_below(w, round, table, p))
    }

    /// `taken` is `mid` with `player` placed at `table` in `round`, and `rest`
    /// is `mid` with that player ruled out there instead: the two halves of a
    /// branch of the search.
    pub open spec fn branch(mid: State, rest: State, taken: State, round: int, table: int, player: int) -> bool {
        &&& mid.wf()
        &&& 0 <= round < ROUND_COUNT
        &&& 0 <= table < TABLE_COUNT
        &&& mid.played(round, table).len() < PLAYERS_PER_TABLE
        &&& mid.potential(round, table).contains(player)
        &&& !mid.played(round, table).contains(player)
        &&& mid.with(player).disjoint(mid.played(round, table))
        &&& Self::placement(mid, taken, round, table, player)
        &&& Self::same_but_potential(mid, rest, round, table)
        &&& rest.potential(round, table) == mid.potential(round, table).remove(player)
    }

    /// One step of the search. Every table still to explore is visited in bit
    /// order: a full table is dropped from the tables to explore and its
    /// remaining seats closed; a table with exactly four possible players is
    /// filled from them; a table with more than four players ends the step
    /// with `Err`. Then, of the other tables, the one with the fewest players
    /// (the first in bit order among equals) is branched on: the first player
    /// that may join it is placed in the returned state and ruled out in this
    /// one, and the players before it, who may not join, are ruled out too. `Err` when that table has
    /// no one left who may join; `Ok(None)` when there was no such table: then
    /// every table still to explore has no one left who may join it, and every
    /// table no longer to explore is full and closed. A table filled in this
    /// step may still have free seats then, with no one left who may take them.
    /// What the step does is `step_result`.
    pub fn step(&mut self) -> (r: Result<Option<Self>, ()>)
        requires
            old(self).wf(),
        ensures
            final(self).wf(),
            Self::refines(*old(self), *final(self)),
            r is Err ==> exists|rd: int, t: int| Self::dead_table(*final(self), rd, t),
            r matches Ok(Some(s2)) ==> {
                &&& s2.wf()
                &&& Self::refines(*old(self), s2)
                &&& exists|rd: int, t: int, p: int, mid: State, w: State|
                    #![trigger Self::placement(mid, s2, rd, t, p), Self::joins_first(w, mid, rd, t, p)]
                    Self::branch(mid, *final(self), s2, rd, t, p) && Self::joins_first(w, mid, rd, t, p)
                        && Self::fewest_first(*final(self), rd, t)
            },
            ({
                let sr = step_result(old(self).sview());
                &&& final(self).sview() == sr.1
                &&& (r is Err <==> sr.0 is Err)
                &&& (r matches Ok(None) <==> sr.0 matches Ok(None))
                &&& (r matches Ok(Some(s2)) ==> sr.0 == Ok::<Option<StateView>, ()>(Some(s2.sview())))
            }),
            r matches Ok(None) ==> forall|b: int|
                #[trigger] final(self).explore().contains(b) ==> final(self).potential(b / 8, b % 8).subset_of(
                    final(self).played(b / 8, b % 8),
                ),
            r matches Ok(None) ==> forall|b: int|
                #[trigger] old(self).explore().contains(b) && !final(self).explore().contains(b) ==> final(self).played(
                    b / 8,
                    b % 8,
                ).len() == PLAYERS_PER_TABLE && final(self).potential(b / 8, b % 8) == final(self).played(b / 8, b % 8),
    {
        let ghost a = *self;
        let mut lowest: Option<(u32, usize, usize)> = None;
        let mut to_explore = self.tables_to_explore;
        let mut overfull = false;
        let ghost e0 = a.explore();
        let ghost st0 = (a.sview(), None::<(int, int, int)>, false);
        let ghost mut seen: int = 0;
        proof {
            assert(Self::refines(a, a));
            assert(word_set(to_explore) =~= Set::new(|x: int| e0.contains(x) && x >= seen));
        }
        while to_explore != 0 && !overfull
            invariant
                0 <= seen <= 64,
                word_set(to_explore) == Set::new(|x: int| e0.contains(x) && x >= seen),
                (self.sview(), low_view(lowest), overfull) == walk_upto(st0, e0, seen as nat),
                e0 == a.explore(),
                self.wf(),
                a.wf(),
                Self::refines(a, *self),
                word_set(to_explore).subset_of(self.explore()),
                overfull ==> exists|rd: int, t: int| Self::dead_table(*self, rd, t),
                lowest matches Some(l) ==> {
                    &&& l.1 < ROUND_COUNT
                    &&& l.2 < TABLE_COUNT
                    &&& l.0 == self.played(l.1 as int, l.2 as int).len()
                    &&& l.0 < PLAYERS_PER_TABLE
                    &&& !word_set(to_explore).contains(l.1 * 8 + l.2)
                    &&& self.explore().contains(l.1 * 8 + l.2)
                },
                forall|x: int, y: int|
                    #![trigger self.explore().contains(x), word_set(to_explore).contains(y)]
                    self.explore().contains(x) && !word_set(to_explore).contains(x) && word_set(to_explore).contains(y)
                        ==> x < y,
                lowest matches Some(l) ==> (!overfull ==> forall|b: int|
                    #[trigger] self.explore().contains(b) && !word_set(to_explore).contains(b) && b != l.1 * 8 + l.2 && (
                    self.played(b / 8, b % 8).len() < l.0 || (self.played(b / 8, b % 8).len() == l.0 && b < l.1 * 8 + l.2))
                        ==> self.potential(b / 8, b % 8).subset_of(self.played(b / 8, b % 8))),
                lowest is None && !overfull ==> forall|b: int|
                    #[trigger] self.explore().contains(b) && !word_set(to_explore).contains(b) ==> self.potential(
                        b / 8,
                        b % 8,
                    ).subset_of(self.played(b / 8, b % 8)),
                forall|b: int|
                    #[trigger] a.explore().contains(b) && !self.explore().contains(b) ==> self.played(b / 8, b % 8).len()
                        == PLAYERS_PER_TABLE && self.potential(b / 8, b % 8) == self.played(b / 8, b % 8),
            decreases to_explore,
        {
            proof {
                lemma_bit_ops();
                lemma_trailing_zeros(to_explore);
            }
            let trailing_zeros = to_explore.trailing_zeros();
            let ghost cur = (self.sview(), low_view(lowest), overfull);
            let ghost tzi = trailing_zeros as int;
            proof {
                assert forall|j: int| seen <= j < tzi implies !#[trigger] e0.contains(j) || walk_upto(st0, e0, seen as nat).2 by {
                    if e0.contains(j) {
                        assert(word_set(to_explore).contains(j));
                    }
                }
                assert(word_set(to_explore).contains(tzi));
                lemma_walk_skip(st0, e0, seen as nat, tzi as nat);
                assert(walk_upto(st0, e0, (tzi + 1) as nat) == walk_visit(cur, tzi));
                lemma_clear_bit_smaller(to_explore, trailing_zeros as u64);
                assert(self.explore().contains(trailing_zeros as int));
                assert(valid_bit(trailing_zeros as int));
                lemma_decode_bit(trailing_zeros);
            }
            let ghost old_to_explore = to_explore;
            to_explore = to_explore & !(1u64 << (trailing_zeros as u64));
            let round = trailing_zeros >> 3u32;
            let table = trailing_zeros - (round << 3u32);
            let round = round as usize;
            let table = table as usize;
            proof {
                assert(word_set(to_explore) =~= word_set(old_to_explore).remove(trailing_zeros as int));
                assert(round * 8 + table == trailing_zeros);
                assert(round == trailing_zeros / 8 && table == trailing_zeros % 8);
                assert(round < ROUND_COUNT && table < TABLE_COUNT);
            }
            if table >= TABLE_COUNT || round >= ROUND_COUNT {
                self.tables_to_explore = self.tables_to_explore & !(1u64 << (trailing_zeros as u64));
            } else {
                let g = round * TABLE_COUNT + table;
                let fixed_player_count = count_ones(self.played_on_table[g]);
                proof {
                    lemma_pop_len(self.played_on_table@[g as int]);
                    assert(fixed_player_count == self.played(round as int, table as int).len());
                    let gg = g as int;
                    assert(gg / 6 == round && gg % 6 == table);
                    assert(game(tzi / 8, tzi % 8) == gg);
                    assert(cur.0.played[gg] == self.played(round as int, table as int));
                    assert(cur.0.potential[gg] == self.potential(round as int, table as int));
                    lemma_pop_len(self.potential_on_table@[gg]);
                }
                if fixed_player_count < 4 {
                    if count_ones(self.potential_on_table[g]) as usize == PLAYERS_PER_TABLE {
                        let ghost before = *self;
                        self.place_forced(round, table);
                        proof {
                            Self::lemma_refines_trans(a, before, *self);
                            if overfull {
                                let (rd, t) = choose|rd: int, t: int| Self::dead_table(before, rd, t);
                                assert(Self::dead_table(*self, rd, t)) by {
                                    assert(before.played(rd, t).subset_of(self.played(rd, t)));
                                    assert(self.potential(rd, t).subset_of(before.potential(rd, t)));
                                    lemma_word_set_finite(self.played_on_table@[game(rd, t)]);
                                    if before.played(rd, t).len() > PLAYERS_PER_TABLE {
                                        vstd::set_lib::lemma_len_subset(before.played(rd, t), self.played(rd, t));
                                    }
                                }
                            }
                            match lowest {
                                Some(l) => {
                                    assert(l.1 * 8 + l.2 != round * 8 + table);
                                    assert(self.played(l.1 as int, l.2 as int) == before.played(l.1 as int, l.2 as int));
                                },
                                None => {},
                            }
                            assert forall|b: int|
                                #[trigger] a.explore().contains(b) && !self.explore().contains(b) implies self.played(
                                    b / 8,
                                    b % 8,
                                ).len() == PLAYERS_PER_TABLE && self.potential(b / 8, b % 8) == self.played(b / 8, b % 8) by {
                                assert(valid_bit(b));
                                assert(b != trailing_zeros);
                                assert(self.played(b / 8, b % 8) == before.played(b / 8, b % 8));
                                assert(self.potential(b / 8, b % 8).subset_of(before.potential(b / 8, b % 8)));
                                assert(self.played(b / 8, b % 8).subset_of(self.potential(b / 8, b % 8)));
                                assert(self.potential(b / 8, b % 8) =~= self.played(b / 8, b % 8));
                            }
                            if lowest is None {
                                assert forall|b: int|
                                    #[trigger] self.explore().contains(b) && !word_set(to_explore).contains(b) implies self.potential(
                                        b / 8,
                                        b % 8,
                                    ).subset_of(self.played(b / 8, b % 8)) by {
                                    assert(valid_bit(b));
                                    if b != trailing_zeros {
                                        assert(before.explore().contains(b));
                                        assert(!word_set(old_to_explore).contains(b));
                                        assert(self.played(b / 8, b % 8) == before.played(b / 8, b % 8));
                                        assert(self.potential(b / 8, b % 8).subset_of(before.potential(b / 8, b % 8)));
                                        assert(before.potential(b / 8, b % 8).subset_of(before.played(b / 8, b % 8)));
                                    }
                                }
                            }
                            match lowest {
                                Some(l) => {
                                    if !overfull {
                                        assert forall|b: int|
                                            #[trigger] self.explore().contains(b) && !word_set(to_explore).contains(b) && b != l.1 * 8 + l.2
                                                && (self.played(b / 8, b % 8).len() < l.0 || (self.played(b / 8, b % 8).len() == l.0 && b
                                                < l.1 * 8 + l.2)) implies self.potential(b / 8, b % 8).subset_of(self.played(b / 8, b % 8)) by {
                                            assert(valid_bit(b));
                                            if b != trailing_zeros {
                                                assert(before.explore().contains(b));
                                                assert(!word_set(old_to_explore).contains(b));
                                                assert(self.played(b / 8, b % 8) == before.played(b / 8, b % 8));
                                                assert(self.potential(b / 8, b % 8).subset_of(before.potential(b / 8, b % 8)));
                                                assert(before.potential(b / 8, b % 8).subset_of(before.played(b / 8, b % 8)));
                                            }
                                        }
                                    }
                                },
                                None => {},
                            }
                        }
                    } else {
                        let ghost old_lowest = lowest;
                        lowest = Some(
                            match lowest {
                                Some(l) => {
                                    if fixed_player_count < l.0 {
                                        (fixed_player_count, round, table)
                                    } else {
                                        l
                                    }
                                },
                                None => (fixed_player_count, round, table),
                            },
                        );
                        proof {
                            let l = lowest->Some_0;
                            if !overfull {
                                assert forall|b: int|
                                    #[trigger] self.explore().contains(b) && !word_set(to_explore).contains(b) && b != l.1 * 8 + l.2
                                        && (self.played(b / 8, b % 8).len() < l.0 || (self.played(b / 8, b % 8).len() == l.0 && b < l.1
                                        * 8 + l.2)) implies self.potential(b / 8, b % 8).subset_of(self.played(b / 8, b % 8)) by {
                                    assert(valid_bit(b));
                                    if b != trailing_zeros {
                                        assert(!word_set(old_to_explore).contains(b));
                                        match old_lowest {
                                            Some(o) => {
                                                assert(self.explore().contains(o.1 * 8 + o.2));
                                                assert(!word_set(old_to_explore).contains(o.1 * 8 + o.2));
                                            },
                                            None => {},
                                        }
                                    } else {
                                        match old_lowest {
                                            Some(o) => {
                                                assert(self.explore().contains(o.1 * 8 + o.2));
                                                assert(!word_set(old_to_explore).contains(o.1 * 8 + o.2));
                                                assert(word_set(old_to_explore).contains(trailing_zeros as int));
                                            },
                                            None => {},
                                        }
                                    }
                                }
                            }
                        }
                    }
                } else if fixed_player_count == 4 {
                    let ghost before = *self;
                    proof {
                        lemma_word_set_finite(self.tables_to_explore);
                        assert(self.explore().len() >= 1) by {
                            vstd::set_lib::lemma_len_subset(set![trailing_zeros as int], self.explore());
                        }
                    }
                    self.tables_to_explore = self.tables_to_explore & !(1u64 << (trailing_zeros as u64));
                    self.empty_table_count = self.empty_table_count.checked_sub(1).unwrap();
                    proof {
                        assert(self.explore() =~= before.explore().remove(trailing_zeros as int));
                        Self::lemma_wf_drop(before, *self, trailing_zeros as int);
                    }
                    let ghost dropped = *self;
                    let v = self.played_on_table[g];
                    self.potential_on_table[g] = v;
                    proof {
                        assert(dropped.played(round as int, table as int).subset_of(dropped.potential(round as int, table as int)));
                        Self::lemma_wf_narrow(dropped, *self, g as int, v);
                        assert(g as int / 6 == round && g as int % 6 == table);
                        Self::lemma_potential_view(dropped, *self, round as int, table as int);
                        let vb = before.sview();
                        let vd = dropped.sview();
                        assert(vd.played =~= vb.played);
                        assert(vd.potential =~= vb.potential);
                        assert(vd.with =~= vb.with);
                        assert(vd.in_round =~= vb.in_round);
                        assert(vd.total =~= vb.total);
                        assert(vd =~= StateView { explore: vb.explore.remove(tzi), open: vb.open - 1, ..vb });
                        assert(self.potential(round as int, table as int) == vb.played[g as int]);
                        assert(g as int / 6 == round && g as int % 6 == table);
                        Self::lemma_refines_trans(a, before, dropped);
                        Self::lemma_refines_trans(a, dropped, *self);
                        match lowest {
                            Some(l) => {
                                assert(self.played(l.1 as int, l.2 as int) == before.played(l.1 as int, l.2 as int));
                            },
                            None => {},
                        }
                        if overfull {
                            let (rd, t) = choose|rd: int, t: int| Self::dead_table(before, rd, t);
                            assert(Self::dead_table(*self, rd, t)) by {
                                assert(self.played(rd, t) == before.played(rd, t));
                                if rd != round || t != table {
                                    assert(self.potential(rd, t) == before.potential(rd, t));
                                }
                            }
                        }
                        assert forall|b: int|
                            #[trigger] a.explore().contains(b) && !self.explore().contains(b) implies self.played(
                                b / 8,
                                b % 8,
                            ).len() == PLAYERS_PER_TABLE && self.potential(b / 8, b % 8) == self.played(b / 8, b % 8) by {
                            assert(valid_bit(b));
                            assert(self.played(b / 8, b % 8) == before.played(b / 8, b % 8));
                            if b != trailing_zeros {
                                assert(!before.explore().contains(b));
                                assert(self.potential(b / 8, b % 8) == before.potential(b / 8, b % 8));
                            } else {
                                assert(self.potential(b / 8, b % 8) == word_set(v));
                            }
                        }
                        if lowest is None {
                            assert forall|b: int|
                                #[trigger] self.explore().contains(b) && !word_set(to_explore).contains(b) implies self.potential(
                                    b / 8,
                                    b % 8,
                                ).subset_of(self.played(b / 8, b % 8)) by {
                                assert(valid_bit(b));
                                assert(b != trailing_zeros);
                                assert(before.explore().contains(b));
                                assert(!word_set(old_to_explore).contains(b));
                                assert(self.played(b / 8, b % 8) == before.played(b / 8, b % 8));
                                assert(self.potential(b / 8, b % 8) == before.potential(b / 8, b % 8));
                            }
                        }
                        match lowest {
                            Some(l) => {
                                if !overfull {
                                    assert forall|b: int|
                                        #[trigger] self.explore().contains(b) && !word_set(to_explore).contains(b) && b != l.1 * 8 + l.2
                                            && (self.played(b / 8, b % 8).len() < l.0 || (self.played(b / 8, b % 8).len() == l.0 && b
                                            < l.1 * 8 + l.2)) implies self.potential(b / 8, b % 8).subset_of(self.played(b / 8, b % 8)) by {
                                        assert(valid_bit(b));
                                        assert(b != trailing_zeros);
                                        assert(before.explore().contains(b));
                                        assert(!word_set(old_to_explore).contains(b));
                                        assert(self.played(b / 8, b % 8) == before.played(b / 8, b % 8));
                                        assert(self.potential(b / 8, b % 8) == before.potential(b / 8, b % 8));
                                    }
                                }
                            },
                            None => {},
                        }
                    }
                } else {
                    overfull = true;
                    proof {
                        assert(Self::dead_table(*self, round as int, table as int));
                    }
                }
            }
            proof {
                assert(word_set(to_explore) =~= Set::new(|x: int| e0.contains(x) && x >= tzi + 1));
                assert((self.sview(), low_view(lowest), overfull) == walk_visit(cur, tzi));
                seen = tzi + 1;
            }
        }
        proof {
            lemma_bit_ops();
            if !overfull {
                assert forall|b: int| !word_set(to_explore).contains(b) by {
                    crate::bits::lemma_zero_iff_no_bits(to_explore);
                }
            }
            assert forall|j: int| seen <= j < 64 implies !#[trigger] e0.contains(j) || walk_upto(st0, e0, seen as nat).2 by {
                if e0.contains(j) && !overfull {
                    assert(word_set(to_explore).contains(j));
                }
            }
            lemma_walk_skip(st0, e0, seen as nat, 64);
            assert(a.sview().explore == e0);
        }
        if overfull {
            return Err(());
        }
        match lowest {
            Some((_, round, table)) => {
                let ghost w = *self;
                let res = self.branch_at(Ghost(a), round, table);
                proof {
                    let rr = round as int;
                    let tt = table as int;
                    let g = game(rr, tt);
                    let h = w.sview();
                    assert(g / 6 == rr && g % 6 == tt);
                    assert(h.potential[g] == w.potential(rr, tt));
                    assert(h.played[g] == w.played(rr, tt));
                    assert(Self::open_seats(w, rr, tt) == open_seats_view(h, g));
                    match res {
                        Ok(Some(s2)) => {
                            let (p, mid) = choose|p: int, mid: State|
                                #![trigger Self::placement(mid, s2, rr, tt, p)]
                                Self::branch(mid, *self, s2, rr, tt, p) && Self::joins_first(w, mid, rr, tt, p);
                            assert(players_only(w.potential(rr, tt)));
                            assert(h.with[p] == w.with(p));
                            assert forall|q: int| #[trigger] open_seats_view(h, g).contains(q) && q < p implies !h.with[q].disjoint(
                                h.played[g],
                            ) by {
                                assert(Self::open_seats(w, rr, tt).contains(q));
                                assert(h.with[q] == w.with(q));
                            }
                            assert(first_joiner_view(h, g, p));
                            let p2 = choose|p2: int| first_joiner_view(h, g, p2);
                            if p2 < p {
                                assert(open_seats_view(h, g).contains(p2));
                                assert(h.with[p2] == w.with(p2));
                            } else if p < p2 {
                                assert(open_seats_view(h, g).contains(p));
                            }
                            assert(p2 == p);
                            Self::lemma_potential_view(w, mid, rr, tt);
                            assert(Self::seats_below(w, rr, tt, p) =~= Set::new(
                                |q: int| open_seats_view(h, g).contains(q) && q < p,
                            ));
                            Self::lemma_potential_view(mid, *self, rr, tt);
                            Self::lemma_placement_view(mid, s2, rr, tt, p);
                            assert(mid.sview().potential[g] == mid.potential(rr, tt));
                        },
                        Ok(None) => {},
                        Err(_) => {
                            Self::lemma_potential_view(w, *self, rr, tt);
                            assert forall|p: int| !first_joiner_view(h, g, p) by {
                                if first_joiner_view(h, g, p) {
                                    assert(Self::open_seats(w, rr, tt).contains(p));
                                    assert(players_only(w.potential(rr, tt)));
                                    assert(h.with[p] == w.with(p));
                                }
                            }
                        },
                    }
                }
                res
            },
            None => Ok(None),
        }
    }

    /// The branching part of a step, at `table` in `round`.
    fn branch_at(&mut self, Ghost(a): Ghost<State>, round: usize, table: usize) -> (r: Result<Option<Self>, ()>)
        requires
            old(self).wf(),
            Self::refines(a, *old(self)),
            round < ROUND_COUNT,
            table < TABLE_COUNT,
            old(self).played(round as int, table as int).len() < PLAYERS_PER_TABLE,
        ensures
            final(self).wf(),
            Self::refines(a, *final(self)),
            r is Err ==> exists|rd: int, t: int| Self::dead_table(*final(self), rd, t),
            r matches Ok(Some(s2)) ==> {
                &&& s2.wf()
                &&& Self::refines(a, s2)
                &&& exists|p: int, mid: State|
                    #![trigger Self::placement(mid, s2, round as int, table as int, p)]
                    Self::branch(mid, *final(self), s2, round as int, table as int, p) && Self::joins_first(
                        *old(self),
                        mid,
                        round as int,
                        table as int,
                        p,
                    )
            },
            r is Ok ==> r matches Ok(Some(_)),
            r is Err ==> {
                &&& Self::same_but_potential(*old(self), *final(self), round as int, table as int)
                &&& final(self).potential(round as int, table as int) == old(self).potential(round as int, table as int).difference(
                    Self::open_seats(*old(self), round as int, table as int),
                )
                &&& forall|q: int|
                    #[trigger] Self::open_seats(*old(self), round as int, table as int).contains(q) ==> !old(self).with(q).disjoint(
                        old(self).played(round as int, table as int),
                    )
            },
    {
        let g = round * TABLE_COUNT + table;
        let potential = self.potential_on_table[g] & !self.played_on_table[g];
        let mut temp = potential;
        let mut result: Option<State> = None;
        let mut found = false;
        let ghost mut mid_g: State = *self;
        let ghost mut p_g: int = 0;
        let ghost w = *self;
        let ghost rr = round as int;
        let ghost tt = table as int;
        proof {
            assert(Self::same_but_potential(w, w, rr, tt));
            lemma_bit_ops();
            assert(word_set(temp) =~= self.potential(round as int, table as int).difference(self.played(round as int, table as int)));
        }
        while temp != 0 && !found
            invariant
                self.wf(),
                Self::refines(a, *self),
                round < ROUND_COUNT,
                table < TABLE_COUNT,
                g == game(round as int, table as int),
                self.played(round as int, table as int).len() < PLAYERS_PER_TABLE,
                found == result is Some,
                !found ==> word_set(temp) == self.potential(round as int, table as int).difference(self.played(round as int, table as int)),
                result matches Some(s2) ==> {
                    &&& s2.wf()
                    &&& Self::refines(a, s2)
                    &&& Self::branch(mid_g, *self, s2, round as int, table as int, p_g)
                },
                w.wf(),
                rr == round as int,
                tt == table as int,
                Self::same_but_potential(w, *self, rr, tt),
                self.potential(rr, tt).subset_of(w.potential(rr, tt)),
                !found ==> forall|q: int|
                    #[trigger] w.potential(rr, tt).contains(q) && !self.potential(rr, tt).contains(q) ==> Self::open_seats(
                        w,
                        rr,
                        tt,
                    ).contains(q) && !w.with(q).disjoint(w.played(rr, tt)),
                !found ==> forall|q: int, q2: int|
                    #[trigger] w.potential(rr, tt).contains(q) && !self.potential(rr, tt).contains(q) && #[trigger] Self::open_seats(
                        *self,
                        rr,
                        tt,
                    ).contains(q2) ==> q < q2,
                found ==> Self::joins_first(w, mid_g, rr, tt, p_g),
            decreases temp,
        {
            proof {
                lemma_bit_ops();
                lemma_trailing_zeros(temp);
                assert(players_only(self.potential(round as int, table as int)));
            }
            let player = temp.trailing_zeros() as usize;
            proof {
                assert forall|q2: int| #[trigger] Self::open_seats(*self, rr, tt).contains(q2) implies q2 >= player by {
                    assert(word_set(temp).contains(q2));
                    if q2 < player {
                        assert(!bit(temp, q2));
                    }
                }
                assert(word_set(temp).contains(player as int));
                assert(self.potential(round as int, table as int).contains(player as int));
                assert(!self.played(round as int, table as int).contains(player as int));
            }
            let player_bit = 1u64 << (player as u64);
            proof {
                lemma_clear_bit_smaller(temp, player as u64);
            }
            let ghost before = *self;
            let ghost old_temp = temp;
            temp = temp & !player_bit;
            let v = self.potential_on_table[g] & !player_bit;
            proof {
                assert(word_set(temp) =~= word_set(old_temp).remove(player as int));
                assert(word_set(v) =~= before.potential(round as int, table as int).remove(player as int));
                assert(before.played(round as int, table as int).subset_of(before.potential(round as int, table as int)));
                assert(g as int / 6 == round && g as int % 6 == table);
            }
            if !self.can_place_player_on_table(round, table, player) {
                self.potential_on_table[g] = v;
                proof {
                    Self::lemma_wf_narrow(before, *self, g as int, v);
                    Self::lemma_refines_trans(a, before, *self);
                    assert(word_set(temp) =~= self.potential(round as int, table as int).difference(self.played(round as int, table as int)));
                    Self::lemma_same_trans(w, before, *self, rr, tt);
                    assert(before.with(player as int) == w.with(player as int));
                    assert(before.played(rr, tt) == w.played(rr, tt));
                    assert(self.played(rr, tt) == w.played(rr, tt));
                    assert(Self::open_seats(*self, rr, tt) =~= Self::open_seats(before, rr, tt).remove(player as int));
                }
            } else {
                let mut state2 = *self;
                self.potential_on_table[g] = v;
                state2.apply_player(round, table, player);
                proof {
                    Self::lemma_wf_narrow(before, *self, g as int, v);
                    Self::lemma_refines_trans(a, before, *self);
                    Self::lemma_placement_refines(before, state2, round as int, table as int, player as int);
                    Self::lemma_refines_trans(a, before, state2);
                    mid_g = before;
                    p_g = player as int;
                    Self::lemma_same_trans(w, before, *self, rr, tt);
                    let pi = player as int;
                    assert(before.with(pi) == w.with(pi));
                    assert(before.played(rr, tt) == w.played(rr, tt));
                    assert forall|q: int| #[trigger] Self::open_seats(w, rr, tt).contains(q) && q < pi implies !w.with(q).disjoint(
                        w.played(rr, tt),
                    ) by {
                        if before.potential(rr, tt).contains(q) {
                            assert(Self::open_seats(before, rr, tt).contains(q));
                        }
                    }
                    assert(Self::first_joiner(w, rr, tt, pi));
                    assert forall|x: int| #[trigger] before.potential(rr, tt).contains(x) == w.potential(rr, tt).difference(
                        Self::seats_below(w, rr, tt, pi),
                    ).contains(x) by {
                        if before.potential(rr, tt).contains(x) && Self::seats_below(w, rr, tt, pi).contains(x) {
                            assert(Self::open_seats(before, rr, tt).contains(x));
                        }
                        if w.potential(rr, tt).contains(x) && !Self::seats_below(w, rr, tt, pi).contains(x)
                            && !before.potential(rr, tt).contains(x) {
                            assert(Self::open_seats(before, rr, tt).contains(pi));
                        }
                    }
                    assert(before.potential(rr, tt) =~= w.potential(rr, tt).difference(Self::seats_below(w, rr, tt, pi)));
                }
                result = Some(state2);
                found = true;
            }
        }
        match result {
            Some(s2) => {
                proof {
                    assert(Self::placement(mid_g, s2, round as int, table as int, p_g));
                    assert(Self::joins_first(w, mid_g, rr, tt, p_g));
                }
                Ok(Some(s2))
            },
            None => {
                proof {
                    lemma_bit_ops();
                    crate::bits::lemma_zero_iff_no_bits(temp);
                    assert(self.potential(round as int, table as int).subset_of(self.played(round as int, table as int))) by {
                        assert forall|i: int| self.potential(round as int, table as int).contains(i) implies self.played(
                            round as int,
                            table as int,
                        ).contains(i) by {
                            assert(!word_set(temp).contains(i));
                        }
                    }
                    assert(Self::dead_table(*self, round as int, table as int));
                    assert forall|q: int| #[trigger] Self::open_seats(w, rr, tt).contains(q) implies !w.with(q).disjoint(
                        w.played(rr, tt),
                    ) by {
                        if self.potential(rr, tt).contains(q) {
                            assert(!word_set(temp).contains(q));
                        }
                    }
                    assert forall|x: int| #[trigger] self.potential(rr, tt).contains(x) == w.potential(rr, tt).difference(
                        Self::open_seats(w, rr, tt),
                    ).contains(x) by {
                        if self.potential(rr, tt).contains(x) && Self::open_seats(w, rr, tt).contains(x) {
                            assert(!word_set(temp).contains(x));
                        }
                    }
                    assert(self.potential(rr, tt) =~= w.potential(rr, tt).difference(Self::open_seats(w, rr, tt)));
                }
                Err(())
            },
        }
    }
}

} // verus!
