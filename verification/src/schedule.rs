//! A schedule of games: every round, the players are split over the tables. A
//! schedule is scored by how many different opponents the players meet and how
//! many different tables they play at, and improved by swapping players.
use vstd::prelude::*;
use crate::bits::{bit, pop, count_ones, lemma_bit_ops, lemma_pop_card};
use rand::Rng;
use rand::seq::SliceRandom;

verus! {

/// How much more a table played at weighs in the score than an opponent met.
pub const UNIQUE_GAMES_MULTIPLIER: u32 = 2;

/// The game of `table` in `round` of a schedule with `tables` tables, as a word
/// with a bit per player.
pub open spec fn game_at(m: Seq<u64>, tables: int, round: int, table: int) -> u64 {
    m[round * tables + table]
}

/// The players that played at `table` in the first `k` rounds, as a word.
pub open spec fn table_union(m: Seq<u64>, tables: int, table: int, k: int) -> u64
    decreases k,
{
    if k <= 0 {
        0u64
    } else {
        table_union(m, tables, table, k - 1) | game_at(m, tables, k - 1, table)
    }
}

/// The sum, over the first `k` tables, of the number of players that played
/// there in some round.
pub open spec fn games_sum(m: Seq<u64>, tables: int, k: int) -> int
    decreases k,
{
    if k <= 0 {
        0
    } else {
        games_sum(m, tables, k - 1) + pop(table_union(m, tables, k - 1, tables), 64)
    }
}

/// The players that `player` shared a game with in the first `k` rounds, the
/// player included, as a word: the games are those its positions point to.
pub open spec fn player_union(m: Seq<u64>, pos: Seq<u16>, tables: int, player: int, k: int) -> u64
    decreases k,
{
    if k <= 0 {
        0u64
    } else {
        player_union(m, pos, tables, player, k - 1) | m[pos[player * tables + k - 1] as int]
    }
}

/// The number of players, `player` included, that `player` shared a game with.
pub open spec fn opponent_count(m: Seq<u64>, pos: Seq<u16>, tables: int, player: int) -> int {
    pop(player_union(m, pos, tables, player, tables), 64) as int
}

/// The sum of the first `k` counts of `c`.
pub open spec fn counts_sum(c: Seq<u8>, k: int) -> int
    decreases k,
{
    if k <= 0 {
        0
    } else {
        counts_sum(c, k - 1) + c[k - 1]
    }
}

/// The sum, over the first `k` players, of the number of players each shared a
/// game with, itself included.
pub open spec fn opponents_sum(m: Seq<u64>, pos: Seq<u16>, tables: int, k: int) -> int
    decreases k,
{
    if k <= 0 {
        0
    } else {
        opponents_sum(m, pos, tables, k - 1) + opponent_count(m, pos, tables, k - 1)
    }
}

/// The most tables played at that `players` players can reach over `tables`
/// rounds: every player at every table.
pub open spec fn ideal_games(players: int, tables: int) -> int {
    players * tables
}

/// The most opponents that `players` players can meet over `tables` rounds at
/// `tables` tables of at most the rounded-up share of players each.
pub open spec fn ideal_opponents(players: int, tables: int) -> int {
    let share = if players % tables != 0 {
        players / tables + 1
    } else {
        players / tables
    };
    players * tables * ((if share > 1 {
        share
    } else {
        1
    }) - 1)
}

/// The score of a schedule from its opponent and table totals.
pub open spec fn score_of(opponents: int, games: int, ideal_games: int, ideal_opponents: int) -> int {
    opponents * ideal_games + games * ideal_opponents * 2
}

/// The players of a schedule: at most one per bit of a word. The tables: at
/// least one, and few enough that a game of a round fits a `u16`.
pub open spec fn sizes_ok(players: int, tables: int) -> bool {
    0 <= players <= 64 && 1 <= tables <= 256
}

/// A schedule of games for a number of players over as many rounds as tables.
pub struct Schedule {
    player_count: usize,
    tables: usize,
    matches: Vec<u64>,
    player_positions: Vec<u16>,
    player_opponent_cache: Vec<u8>,
    unique_games_played_cache: u32,
    unique_opponent_sum_cache: u32,
    /// The most tables played at that the players can reach.
    pub ideal_unique_games: u32,
    /// The most opponents that the players can meet.
    pub ideal_unique_opponents: u32,
}

impl Schedule {
    pub closed spec fn spec_players(&self) -> int {
        self.player_count as int
    }

    pub closed spec fn spec_tables(&self) -> int {
        self.tables as int
    }

    /// The games, `round * tables + table`, each a word with a bit per player.
    pub closed spec fn spec_matches(&self) -> Seq<u64> {
        self.matches@
    }

    /// Where each player is in each round, `player * tables + round`: the index
    /// of its game.
    pub closed spec fn spec_positions(&self) -> Seq<u16> {
        self.player_positions@
    }

    /// The kept count of each player's opponents, itself included.
    pub closed spec fn spec_opponent_cache(&self) -> Seq<u8> {
        self.player_opponent_cache@
    }

    /// The kept total of tables played at.
    pub closed spec fn spec_games_cache(&self) -> int {
        self.unique_games_played_cache as int
    }

    /// The kept total of opponents met.
    pub closed spec fn spec_opponents_cache(&self) -> int {
        self.unique_opponent_sum_cache as int
    }

    pub closed spec fn spec_ideal_games(&self) -> int {
        self.ideal_unique_games as int
    }

    pub closed spec fn spec_ideal_opponents(&self) -> int {
        self.ideal_unique_opponents as int
    }

    /// The shape of the schedule: sizes, lengths, positions that point at a
    /// game of their round, and the ideals for the sizes.
    pub open spec fn wf(&self) -> bool {
        let p = self.spec_players();
        let t = self.spec_tables();
        &&& sizes_ok(p, t)
        &&& self.spec_matches().len() == t * t
        &&& self.spec_positions().len() == p * t
        &&& self.spec_opponent_cache().len() == p
        &&& forall|i: int| 0 <= i < p * t ==> (#[trigger] self.spec_positions()[i]) < t * t
        &&& self.spec_ideal_games() == ideal_games(p, t)
        &&& self.spec_ideal_opponents() == ideal_opponents(p, t)
        &&& forall|i: int| 0 <= i < p ==> (#[trigger] self.spec_opponent_cache()[i]) <= 64
        &&& self.spec_games_cache() <= 64 * t
        &&& self.spec_opponents_cache() <= 64 * p
    }

    /// The total of tables played at, computed from the games.
    pub open spec fn games_total(&self) -> int {
        games_sum(self.spec_matches(), self.spec_tables(), self.spec_tables())
    }

    /// The total of opponents met, computed from the games and positions.
    pub open spec fn opponents_total(&self) -> int {
        opponents_sum(self.spec_matches(), self.spec_positions(), self.spec_tables(), self.spec_players())
            - self.spec_players()
    }

    /// The kept counts and totals agree with the games and positions.
    pub open spec fn caches_ok(&self) -> bool {
        &&& forall|p: int|
            0 <= p < self.spec_players() ==> #[trigger] self.spec_opponent_cache()[p] == opponent_count(
                self.spec_matches(),
                self.spec_positions(),
                self.spec_tables(),
                p,
            )
        &&& self.spec_games_cache() == self.games_total()
        &&& self.spec_opponents_cache() == self.opponents_total()
    }

    /// The score computed from the games and positions.
    pub open spec fn score(&self) -> int {
        score_of(
            self.opponents_total(),
            self.games_total(),
            self.spec_ideal_games(),
            self.spec_ideal_opponents(),
        )
    }

    /// The score from the kept totals.
    pub open spec fn cached_score(&self) -> int {
        score_of(
            self.spec_opponents_cache(),
            self.spec_games_cache(),
            self.spec_ideal_games(),
            self.spec_ideal_opponents(),
        )
    }
}

/// `n` zero words.
fn zeros_u64(n: usize) -> (r: Vec<u64>)
    ensures
        r@.len() == n,
        forall|i: int| 0 <= i < n ==> r@[i] == 0,
{
    let mut v: Vec<u64> = Vec::new();
    let mut i: usize = 0;
    while i < n
        invariant
            i <= n,
            v@.len() == i,
            forall|j: int| 0 <= j < i ==> v@[j] == 0,
        decreases n - i,
    {
        v.push(0);
        i = i + 1;
    }
    v
}

/// `n` zero positions.
fn zeros_u16(n: usize) -> (r: Vec<u16>)
    ensures
        r@.len() == n,
        forall|i: int| 0 <= i < n ==> r@[i] == 0,
{
    let mut v: Vec<u16> = Vec::new();
    let mut i: usize = 0;
    while i < n
        invariant
            i <= n,
            v@.len() == i,
            forall|j: int| 0 <= j < i ==> v@[j] == 0,
        decreases n - i,
    {
        v.push(0);
        i = i + 1;
    }
    v
}

/// `n` zero counts.
fn zeros_u8(n: usize) -> (r: Vec<u8>)
    ensures
        r@.len() == n,
        forall|i: int| 0 <= i < n ==> r@[i] == 0,
{
    let mut v: Vec<u8> = Vec::new();
    let mut i: usize = 0;
    while i < n
        invariant
            i <= n,
            v@.len() == i,
            forall|j: int| 0 <= j < i ==> v@[j] == 0,
        decreases n - i,
    {
        v.push(0);
        i = i + 1;
    }
    v
}

/// The ideals are small: at most the player count times the table count, and
/// at most the square of the player count.
proof fn lemma_ideals(p: int, t: int)
    requires
        sizes_ok(p, t),
    ensures
        0 <= ideal_games(p, t) <= 64 * 256,
        0 <= ideal_opponents(p, t) <= p * p,
        p * p <= 4096,
{
    let share = if p % t != 0 {
        p / t + 1
    } else {
        p / t
    };
    let m = if share > 1 {
        share
    } else {
        1
    };
    assert(p * t <= 64 * 256) by (nonlinear_arith) requires 0 <= p <= 64, 1 <= t <= 256;
    assert(p * t >= 0) by (nonlinear_arith) requires 0 <= p, 1 <= t;
    assert(p == t * (p / t) + p % t) by (nonlinear_arith) requires t >= 1;
    assert(0 <= p % t < t) by (nonlinear_arith) requires t >= 1;
    assert((m - 1) * t <= p) by (nonlinear_arith)
        requires
            p == t * (p / t) + p % t,
            0 <= p % t < t,
            p >= 0,
            t >= 1,
            share == (if p % t != 0 { p / t + 1 } else { p / t }),
            m == (if share > 1 { share } else { 1 }),
    ;
    assert(m - 1 >= 0);
    assert(p * t * (m - 1) <= p * p) by (nonlinear_arith)
        requires (m - 1) * t <= p, p >= 0, m - 1 >= 0;
    assert(p * t * (m - 1) >= 0) by (nonlinear_arith) requires p >= 0, t >= 1, m - 1 >= 0;
    assert(p * p <= 4096) by (nonlinear_arith) requires 0 <= p <= 64;
}

/// A sum of at most `k` counts of at most 64 is at most `64 * k`.
proof fn lemma_games_sum_bound(m: Seq<u64>, tables: int, k: int)
    ensures
        0 <= games_sum(m, tables, k) <= 64 * (if k < 0 { 0 } else { k }),
    decreases k,
{
    if k > 0 {
        lemma_games_sum_bound(m, tables, k - 1);
        crate::bits::lemma_pop_le(table_union(m, tables, k - 1, tables), 64);
    }
}

/// A sum of at most `k` counts of at most 64 is at most `64 * k`.
proof fn lemma_opponents_sum_bound(m: Seq<u64>, pos: Seq<u16>, tables: int, k: int)
    ensures
        0 <= opponents_sum(m, pos, tables, k) <= 64 * (if k < 0 { 0 } else { k }),
    decreases k,
{
    if k > 0 {
        lemma_opponents_sum_bound(m, pos, tables, k - 1);
        crate::bits::lemma_pop_le(player_union(m, pos, tables, k - 1, tables), 64);
    }
}

impl Schedule {
    /// A schedule of `player_count` players at `tables` tables with no games
    /// yet: every game empty, every position zero.
    pub fn new(player_count: usize, tables: usize) -> (r: Self)
        requires
            sizes_ok(player_count as int, tables as int),
        ensures
            r.wf(),
            r.spec_players() == player_count,
            r.spec_tables() == tables,
            forall|i: int| 0 <= i < tables * tables ==> r.spec_matches()[i] == 0,
            forall|i: int| 0 <= i < player_count * tables ==> r.spec_positions()[i] == 0,
            forall|i: int| 0 <= i < player_count ==> r.spec_opponent_cache()[i] == 0,
            r.spec_games_cache() == 0,
            r.spec_opponents_cache() == 0,
    {
        proof {
            lemma_ideals(player_count as int, tables as int);
            assert(tables * tables <= 65536) by (nonlinear_arith) requires 1 <= tables <= 256;
            assert(tables * tables >= 1) by (nonlinear_arith) requires 1 <= tables;
            assert(player_count * tables <= 64 * 256) by (nonlinear_arith)
                requires player_count <= 64, tables <= 256;
        }
        let matches = zeros_u64(tables * tables);
        let player_positions = zeros_u16(player_count * tables);
        let player_opponent_cache = zeros_u8(player_count);
        let share = if player_count % tables != 0 {
            player_count / tables + 1
        } else {
            player_count / tables
        };
        let most = if share > 1 {
            share
        } else {
            1
        };
        proof {
            assert(player_count * tables * (most - 1) == ideal_opponents(player_count as int, tables as int));
        }
        let ideal_unique_opponents = (player_count * tables * (most - 1)) as u32;
        Self {
            player_count,
            tables,
            matches,
            player_positions,
            player_opponent_cache,
            unique_games_played_cache: 0,
            unique_opponent_sum_cache: 0,
            ideal_unique_games: (player_count * tables) as u32,
            ideal_unique_opponents,
        }
    }

    /// The game at `table` of `round`.
    fn get(&self, round: usize, table: usize) -> (r: u64)
        requires
            self.wf(),
            round * self.spec_tables() + table < self.spec_tables() * self.spec_tables(),
        ensures
            r == game_at(self.spec_matches(), self.spec_tables(), round as int, table as int),
    {
        proof {
            let t = self.spec_tables();
            assert(t * t <= 65536) by (nonlinear_arith) requires 1 <= t <= 256;
            assert(round * t <= round * t + table);
        }
        self.matches[round * self.tables + table]
    }

    /// The number of tables, which is also the number of rounds.
    pub fn get_tables(&self) -> (r: usize)
        ensures
            r == self.spec_tables(),
    {
        self.tables
    }

    /// The number of players.
    pub fn get_player_count(&self) -> (r: usize)
        ensures
            r == self.spec_players(),
    {
        self.player_count
    }

    /// The players of the game at `table` of `round`, in increasing order.
    pub fn get_game(&self, round: usize, table: usize) -> (r: Vec<usize>)
        requires
            self.wf(),
            round * self.spec_tables() + table < self.spec_tables() * self.spec_tables(),
        ensures
            forall|i: int| 0 <= i < r@.len() ==> r@[i] < self.spec_players() && bit(
                game_at(self.spec_matches(), self.spec_tables(), round as int, table as int),
                r@[i] as int,
            ),
            forall|i: int, j: int| 0 <= i < j < r@.len() ==> r@[i] < r@[j],
            forall|p: int|
                0 <= p < self.spec_players() && bit(
                    game_at(self.spec_matches(), self.spec_tables(), round as int, table as int),
                    p,
                ) ==> r@.contains(p as usize),
    {
        let game = self.get(round, table);
        let mut players: Vec<usize> = Vec::new();
        let mut player: usize = 0;
        proof {
            lemma_bit_ops();
        }
        while player < self.player_count
            invariant
                self.wf(),
                player <= self.spec_players(),
                game == game_at(self.spec_matches(), self.spec_tables(), round as int, table as int),
                forall|i: int| 0 <= i < players@.len() ==> players@[i] < player && bit(game, players@[i] as int),
                forall|i: int, j: int| 0 <= i < j < players@.len() ==> players@[i] < players@[j],
                forall|p: int| 0 <= p < player && bit(game, p) ==> players@.contains(p as usize),
            decreases self.spec_players() - player,
        {
            let mask = 1u64 << (player as u64);
            proof {
                crate::bits::lemma_bit_ops();
                assert(bit(game & mask, player as int) == bit(game, player as int));
                crate::bits::lemma_zero_iff_no_bits(game & mask);
                assert(forall|j: int| j != player ==> !#[trigger] bit(game & mask, j));
            }
            let ghost before = players@;
            if game & mask != 0 {
                players.push(player);
                proof {
                    assert(players@[players@.len() - 1] == player);
                    assert forall|p: int| 0 <= p < player + 1 && bit(game, p) implies players@.contains(p as usize) by {
                        if p < player {
                            let k = choose|k: int| 0 <= k < before.len() && before[k] == p as usize;
                            assert(players@[k] == p as usize);
                        } else {
                            assert(players@[players@.len() - 1] == p as usize);
                        }
                    }
                }
            }
            player = player + 1;
        }
        players
    }

    /// Recounts, table by table, the players that played there in some round,
    /// and keeps the total.
    pub fn find_unique_games_played(&mut self) -> (r: u32)
        requires
            old(self).wf(),
        ensures
            r == old(self).games_total(),
            final(self).wf(),
            final(self).spec_players() == old(self).spec_players(),
            final(self).spec_tables() == old(self).spec_tables(),
            final(self).spec_matches() == old(self).spec_matches(),
            final(self).spec_positions() == old(self).spec_positions(),
            final(self).spec_opponent_cache() == old(self).spec_opponent_cache(),
            final(self).spec_opponents_cache() == old(self).spec_opponents_cache(),
            final(self).spec_games_cache() == r,
    {
        let t = self.tables;
        let ghost m = self.matches@;
        let mut total: u32 = 0;
        let mut table: usize = 0;
        while table < t
            invariant
                self == old(self),
                self.wf(),
                t == self.spec_tables(),
                m == self.spec_matches(),
                table <= t,
                total == games_sum(m, t as int, table as int),
                total <= 64 * table,
            decreases t - table,
        {
            let mut union: u64 = 0;
            let mut round: usize = 0;
            while round < t
                invariant
                    self == old(self),
                    self.wf(),
                    t == self.spec_tables(),
                    m == self.spec_matches(),
                    table < t,
                    round <= t,
                    union == table_union(m, t as int, table as int, round as int),
                decreases t - round,
            {
                proof {
                    assert(round * t + table < t * t) by (nonlinear_arith)
                        requires round < t, table < t;
                }
                union = union | self.get(round, table);
                round = round + 1;
            }
            let c = count_ones(union);
            total = total + c;
            table = table + 1;
        }
        self.unique_games_played_cache = total;
        total
    }

    /// The kept total of tables played at.
    pub fn unique_games_played(&self) -> (r: u32)
        ensures
            r == self.spec_games_cache(),
    {
        self.unique_games_played_cache
    }

    /// The kept total of opponents met.
    pub fn unique_opponents(&self) -> (r: u32)
        ensures
            r == self.spec_opponents_cache(),
    {
        self.unique_opponent_sum_cache
    }

    /// Recounts the players that `player` shared a game with, itself included,
    /// and keeps the count.
    fn player_unique_opponents(&mut self, player: usize) -> (r: u8)
        requires
            old(self).wf(),
            player < old(self).spec_players(),
        ensures
            r == opponent_count(old(self).spec_matches(), old(self).spec_positions(), old(self).spec_tables(), player as int),
            final(self).wf(),
            final(self).spec_players() == old(self).spec_players(),
            final(self).spec_tables() == old(self).spec_tables(),
            final(self).spec_matches() == old(self).spec_matches(),
            final(self).spec_positions() == old(self).spec_positions(),
            final(self).spec_opponent_cache() == old(self).spec_opponent_cache().update(player as int, r),
            final(self).spec_opponents_cache() == old(self).spec_opponents_cache(),
            final(self).spec_games_cache() == old(self).spec_games_cache(),
    {
        let t = self.tables;
        let ghost m = self.matches@;
        let ghost pos = self.player_positions@;
        let mut union: u64 = 0;
        let mut round: usize = 0;
        while round < t
            invariant
                self == old(self),
                self.wf(),
                t == self.spec_tables(),
                m == self.spec_matches(),
                pos == self.spec_positions(),
                player < self.spec_players(),
                round <= t,
                union == player_union(m, pos, t as int, player as int, round as int),
            decreases t - round,
        {
            proof {
                assert(player * t + round < self.spec_players() * t) by (nonlinear_arith)
                    requires player < self.spec_players(), round < t;
            }
            let at = self.player_positions[player * t + round] as usize;
            union = union | self.matches[at];
            round = round + 1;
        }
        let count = count_ones(union) as u8;
        self.player_opponent_cache.set(player, count);
        count
    }

    /// Recounts, player by player, the players each shared a game with, keeps
    /// each count, and keeps and returns the total, each player not counted as
    /// its own opponent.
    pub fn find_unique_opponents(&mut self) -> (r: u32)
        requires
            old(self).wf(),
            opponents_sum(old(self).spec_matches(), old(self).spec_positions(), old(self).spec_tables(), old(self).spec_players())
                >= old(self).spec_players(),
        ensures
            r == old(self).opponents_total(),
            final(self).wf(),
            final(self).spec_players() == old(self).spec_players(),
            final(self).spec_tables() == old(self).spec_tables(),
            final(self).spec_matches() == old(self).spec_matches(),
            final(self).spec_positions() == old(self).spec_positions(),
            forall|p: int|
                0 <= p < final(self).spec_players() ==> #[trigger] final(self).spec_opponent_cache()[p] == opponent_count(
                    final(self).spec_matches(),
                    final(self).spec_positions(),
                    final(self).spec_tables(),
                    p,
                ),
            final(self).spec_opponents_cache() == r,
            final(self).spec_games_cache() == old(self).spec_games_cache(),
    {
        let ghost m = self.matches@;
        let ghost pos = self.player_positions@;
        let ghost t = self.spec_tables();
        let mut total: u32 = 0;
        let mut player: usize = 0;
        while player < self.player_count
            invariant
                self.wf(),
                self.spec_players() == old(self).spec_players(),
                self.spec_tables() == t,
                t == old(self).spec_tables(),
                m == self.spec_matches(),
                pos == self.spec_positions(),
                m == old(self).spec_matches(),
                pos == old(self).spec_positions(),
                self.spec_opponents_cache() == old(self).spec_opponents_cache(),
                self.spec_games_cache() == old(self).spec_games_cache(),
                player <= self.spec_players(),
                total == opponents_sum(m, pos, t, player as int),
                total <= 64 * player,
                forall|p: int| 0 <= p < player ==> #[trigger] self.spec_opponent_cache()[p] == opponent_count(m, pos, t, p),
            decreases self.spec_players() - player,
        {
            let c = self.player_unique_opponents(player);
            proof {
                crate::bits::lemma_pop_le(player_union(m, pos, t, player as int, t), 64);
            }
            total = total + c as u32;
            player = player + 1;
        }
        total = total - self.player_count as u32;
        self.unique_opponent_sum_cache = total;
        total
    }

    /// Recomputes the total of opponents met from the kept counts.
    fn sum_unique_opponent(&mut self)
        requires
            old(self).wf(),
            counts_sum(old(self).spec_opponent_cache(), old(self).spec_players()) >= old(self).spec_players(),
        ensures
            final(self).wf(),
            final(self).spec_players() == old(self).spec_players(),
            final(self).spec_tables() == old(self).spec_tables(),
            final(self).spec_matches() == old(self).spec_matches(),
            final(self).spec_positions() == old(self).spec_positions(),
            final(self).spec_opponent_cache() == old(self).spec_opponent_cache(),
            final(self).spec_games_cache() == old(self).spec_games_cache(),
            final(self).spec_opponents_cache() == counts_sum(old(self).spec_opponent_cache(), old(self).spec_players())
                - old(self).spec_players(),
    {
        let mut total: u32 = 0;
        let mut i: usize = 0;
        while i < self.player_count
            invariant
                self == old(self),
                self.wf(),
                i <= self.spec_players(),
                total == counts_sum(self.spec_opponent_cache(), i as int),
                total <= 64 * i,
            decreases self.spec_players() - i,
        {
            total = total + self.player_opponent_cache[i] as u32;
            i = i + 1;
        }
        self.unique_opponent_sum_cache = total - self.player_count as u32;
    }

    /// Recounts both totals, keeps them, and returns the score.
    pub fn generate_score(&mut self) -> (r: u32)
        requires
            old(self).wf(),
            opponents_sum(old(self).spec_matches(), old(self).spec_positions(), old(self).spec_tables(), old(self).spec_players())
                >= old(self).spec_players(),
        ensures
            r == old(self).score(),
            final(self).wf(),
            final(self).caches_ok(),
            final(self).spec_players() == old(self).spec_players(),
            final(self).spec_tables() == old(self).spec_tables(),
            final(self).spec_matches() == old(self).spec_matches(),
            final(self).spec_positions() == old(self).spec_positions(),
    {
        let o = self.find_unique_opponents();
        let g = self.find_unique_games_played();
        proof {
            lemma_ideals(self.spec_players(), self.spec_tables());
            self.lemma_score_fits();
        }
        o * self.ideal_unique_games + g * self.ideal_unique_opponents * UNIQUE_GAMES_MULTIPLIER
    }

    /// The score from the kept totals.
    pub fn get_score(&self) -> (r: u32)
        requires
            self.wf(),
        ensures
            r == self.cached_score(),
    {
        proof {
            self.lemma_score_fits();
        }
        self.unique_opponent_sum_cache * self.ideal_unique_games + self.unique_games_played_cache
            * self.ideal_unique_opponents * UNIQUE_GAMES_MULTIPLIER
    }

    /// Kept totals within their bounds give a score that fits a `u32`.
    proof fn lemma_score_fits(&self)
        requires
            self.wf(),
        ensures
            self.cached_score() <= 300_000_000,
            self.spec_opponents_cache() * self.spec_ideal_games() <= 100_000_000,
            self.spec_games_cache() * self.spec_ideal_opponents() * 2 <= 200_000_000,
    {
        let p = self.spec_players();
        let t = self.spec_tables();
        lemma_ideals(p, t);
        let o = self.spec_opponents_cache();
        let g = self.spec_games_cache();
        let ig = self.spec_ideal_games();
        let io = self.spec_ideal_opponents();
        assert(o * ig <= 100_000_000) by (nonlinear_arith)
            requires 0 <= o <= 64 * p, 0 <= ig <= 64 * 256, 0 <= p <= 64;
        assert(g * io * 2 <= 200_000_000) by (nonlinear_arith)
            requires 0 <= g <= 64 * t, 0 <= io <= 4096, 1 <= t <= 256;
    }

    /// Whether both kept totals reach their ideals.
    pub fn is_ideal(&self) -> (r: bool)
        ensures
            r == (self.spec_opponents_cache() == self.spec_ideal_opponents() && self.spec_games_cache()
                == self.spec_ideal_games()),
    {
        self.unique_opponent_sum_cache == self.ideal_unique_opponents
            && self.unique_games_played_cache == self.ideal_unique_games
    }
}

/// Whether `p` sits at some table of the round `round`.
pub open spec fn plays_in(round: Seq<Vec<usize>>, p: int) -> bool {
    exists|t: int| 0 <= t < round.len() && #[trigger] round[t]@.contains(p as usize)
}

/// Games that a schedule of `players` players at `tables` tables can take in:
/// at most as many rounds as tables, at most as many tables a round as tables,
/// players below the player count, and every player somewhere or a player in
/// the first game of the first round.
pub open spec fn data_ok(data: Seq<Vec<Vec<usize>>>, players: int, tables: int) -> bool {
    &&& data.len() <= tables
    &&& forall|r: int| 0 <= r < data.len() ==> (#[trigger] data[r]@).len() <= tables
    &&& forall|r: int, t: int, i: int|
        0 <= r < data.len() && 0 <= t < data[r]@.len() && 0 <= i < data[r]@[t]@.len() ==> (
        #[trigger] data[r]@[t]@[i]) < players
    &&& (forall|p: int| 0 <= p < players ==> #[trigger] plays_somewhere(data, p)) || first_game_taken(data)
}

/// Whether the first game of the first round of `data` has a player: a player
/// listed nowhere is counted with the players of that game.
pub open spec fn first_game_taken(data: Seq<Vec<Vec<usize>>>) -> bool {
    data.len() > 0 && data[0]@.len() > 0 && data[0]@[0]@.len() > 0
}

/// Whether `p` sits at some table of some round of `data`.
pub open spec fn plays_somewhere(data: Seq<Vec<Vec<usize>>>, p: int) -> bool {
    exists|r: int| 0 <= r < data.len() && #[trigger] plays_in(data[r]@, p)
}

/// The games that `data` describes: game `t` of round `r` holds the players of
/// `data[r][t]`, and the games it leaves out are empty.
pub open spec fn games_from(m: Seq<u64>, data: Seq<Vec<Vec<usize>>>, tables: int) -> bool {
    forall|r: int, t: int|
        0 <= r < tables && 0 <= t < tables ==> {
            let w = #[trigger] game_at(m, tables, r, t);
            if r < data.len() && t < data[r]@.len() {
                forall|q: usize| bit(w, q as int) <==> data[r]@[t]@.contains(q)
            } else {
                w == 0
            }
        }
}

/// A word holding player `q` has at least one player.
proof fn lemma_pop_has(w: u64, q: int)
    requires
        bit(w, q),
    ensures
        pop(w, 64) >= 1,
{
    lemma_pop_card(w, 64);
    let s = Set::new(|i: int| 0 <= i < 64 && bit(w, i));
    assert(s.contains(q));
    if s.len() == 0 {
        assert(s =~= Set::empty());
    }
}

/// A game of one of the first `k` rounds of a player lies in its union.
proof fn lemma_union_has(m: Seq<u64>, pos: Seq<u16>, tables: int, p: int, k: int, r: int, q: int)
    requires
        0 <= r < k,
        bit(m[pos[p * tables + r] as int], q),
    ensures
        bit(player_union(m, pos, tables, p, k), q),
    decreases k,
{
    lemma_bit_ops();
    if r < k - 1 {
        lemma_union_has(m, pos, tables, p, k - 1, r, q);
    }
}

/// Whether, in some round, the game that `p`'s position points to has a player.
pub open spec fn meets_someone(m: Seq<u64>, pos: Seq<u16>, tables: int, p: int) -> bool {
    exists|r: int, q: int| 0 <= r < tables && #[trigger] bit(m[pos[p * tables + r] as int], q)
}

/// Players that each have someone in one of their games count at least one
/// each.
proof fn lemma_opponents_sum_at_least(m: Seq<u64>, pos: Seq<u16>, tables: int, k: int)
    requires
        forall|p: int| 0 <= p < k ==> #[trigger] meets_someone(m, pos, tables, p),
    ensures
        opponents_sum(m, pos, tables, k) >= k,
    decreases k,
{
    if k > 0 {
        lemma_opponents_sum_at_least(m, pos, tables, k - 1);
        let p = k - 1;
        assert(meets_someone(m, pos, tables, p));
        let (r, q) = choose|r: int, q: int| 0 <= r < tables && #[trigger] bit(m[pos[p * tables + r] as int], q);
        lemma_union_has(m, pos, tables, p, tables, r, q);
        lemma_pop_has(player_union(m, pos, tables, p, tables), q);
    }
}

impl Schedule {
    /// Replaces the games with those of `data`, `data[round][table]` listing the
    /// players of a game, places each player at the last game it is listed in for
    /// each round, and recounts the totals.
    pub fn import_vec(&mut self, data: Vec<Vec<Vec<usize>>>)
        requires
            old(self).wf(),
            data_ok(data@, old(self).spec_players(), old(self).spec_tables()),
        ensures
            final(self).wf(),
            final(self).caches_ok(),
            final(self).spec_players() == old(self).spec_players(),
            final(self).spec_tables() == old(self).spec_tables(),
            games_from(final(self).spec_matches(), data@, final(self).spec_tables()),
            forall|p: int, r: int|
                0 <= p < final(self).spec_players() && 0 <= r < data@.len() && plays_in(data@[r]@, p) ==> #[trigger] bit(
                    final(self).spec_matches()[final(self).spec_positions()[p * final(self).spec_tables() + r] as int],
                    p,
                ),
            forall|p: int, r: int|
                0 <= p < final(self).spec_players() && 0 <= r < final(self).spec_tables() ==> {
                    let at = #[trigger] final(self).spec_positions()[p * final(self).spec_tables() + r];
                    r < data@.len() && plays_in(data@[r]@, p) ==> r * final(self).spec_tables() <= at < r
                        * final(self).spec_tables() + final(self).spec_tables()
                },
            opponents_sum(final(self).spec_matches(), final(self).spec_positions(), final(self).spec_tables(), final(self).spec_players())
                >= final(self).spec_players(),
            data@.len() == final(self).spec_tables() && (forall|r: int| 0 <= r < final(self).spec_tables() ==> (#[trigger] data@[r]@).len() == final(self).spec_tables()) && (forall|
                r: int,
                p: int,
            | 0 <= r < final(self).spec_tables() && 0 <= p < final(self).spec_players() ==> #[trigger] plays_in(data@[r]@, p)) && rounds_partition(data@)
                ==> final(self).is_seated(),
    {
        let t = self.tables;
        let pc = self.player_count;
        let ghost tt = t as int;
        let ghost pp = pc as int;
        proof {
            assert(tt * tt <= 65536) by (nonlinear_arith) requires 1 <= tt <= 256;
            assert(pp * tt <= 64 * 256) by (nonlinear_arith) requires 0 <= pp <= 64, tt <= 256;
        }
        self.matches = zeros_u64(t * t);
        self.player_positions = zeros_u16(pc * t);
        self.player_opponent_cache = zeros_u8(pc);
        self.unique_games_played_cache = 0;
        self.unique_opponent_sum_cache = 0;
        proof {
            lemma_bit_ops();
            assert(tt * tt >= 1) by (nonlinear_arith) requires tt >= 1;
            assert forall|r2: int, t2: int| 0 <= r2 < tt && 0 <= t2 < tt implies #[trigger] game_at(self.spec_matches(), tt, r2, t2) == 0 by {
                lemma_index_bound(r2, t2, tt, tt);
            }
            assert forall|p: int|
                #![trigger self.spec_positions()[p * tt]]
                0 <= p < pp && data@.len() > 0 && !plays_in(data@[0]@, p) implies self.spec_positions()[p * tt] == 0 by {
                assert(0 <= p * tt < pp * tt) by (nonlinear_arith)
                    requires 0 <= p < pp, tt >= 1;
            }
        }
        let mut r: usize = 0;
        while r < data.len()
            invariant
                self.wf(),
                self.spec_players() == pp,
                self.spec_tables() == tt,
                t == tt,
                pc == pp,
                tt * tt <= 65536,
                data_ok(data@, pp, tt),
                r <= data@.len(),
                forall|p: int|
                    #![trigger self.spec_positions()[p * tt]]
                    0 <= p < pp && data@.len() > 0 && !plays_in(data@[0]@, p) ==> self.spec_positions()[p * tt] == 0,
                forall|r2: int, t2: int|
                    0 <= r2 < tt && 0 <= t2 < tt ==> {
                        let w = #[trigger] game_at(self.spec_matches(), tt, r2, t2);
                        if r2 < r && t2 < data@[r2]@.len() {
                            forall|q: usize| bit(w, q as int) <==> data@[r2]@[t2]@.contains(q)
                        } else {
                            w == 0
                        }
                    },
                forall|p: int, r2: int|
                    0 <= p < pp && 0 <= r2 < r && plays_in(data@[r2]@, p) ==> #[trigger] bit(
                        self.spec_matches()[self.spec_positions()[p * tt + r2] as int],
                        p,
                    ),
                forall|p: int, r2: int|
                    0 <= p < pp && 0 <= r2 < tt ==> {
                        let at = #[trigger] self.spec_positions()[p * tt + r2];
                        r2 < r && plays_in(data@[r2]@, p) ==> r2 * tt <= at < r2 * tt + tt
                    },
            decreases data@.len() - r,
        {
            let round = &data[r];
            let mut tb: usize = 0;
            while tb < round.len()
                invariant
                    self.wf(),
                    self.spec_players() == pp,
                    self.spec_tables() == tt,
                    t == tt,
                    pc == pp,
                    tt * tt <= 65536,
                    data_ok(data@, pp, tt),
                    r < data@.len(),
                    round@ == data@[r as int]@,
                    tb <= round@.len(),
                    forall|p: int|
                        #![trigger self.spec_positions()[p * tt]]
                        0 <= p < pp && data@.len() > 0 && !plays_in(data@[0]@, p) ==> self.spec_positions()[p * tt] == 0,
                    forall|r2: int, t2: int|
                        0 <= r2 < tt && 0 <= t2 < tt ==> {
                            let w = #[trigger] game_at(self.spec_matches(), tt, r2, t2);
                            if (r2 < r && t2 < data@[r2]@.len()) || (r2 == r && t2 < tb) {
                                forall|q: usize| bit(w, q as int) <==> data@[r2]@[t2]@.contains(q)
                            } else {
                                w == 0
                            }
                        },
                    forall|p: int, r2: int|
                        0 <= p < pp && 0 <= r2 < r && plays_in(data@[r2]@, p) ==> #[trigger] bit(
                            self.spec_matches()[self.spec_positions()[p * tt + r2] as int],
                            p,
                        ),
                    forall|p: int|
                        #![trigger self.spec_positions()[p * tt + r]]
                        0 <= p < pp && (exists|t2: int| 0 <= t2 < tb && #[trigger] round@[t2]@.contains(p as usize))
                            ==> bit(self.spec_matches()[self.spec_positions()[p * tt + r] as int], p),
                    forall|p: int, r2: int|
                        0 <= p < pp && 0 <= r2 < tt ==> {
                            let at = #[trigger] self.spec_positions()[p * tt + r2];
                            r2 < r && plays_in(data@[r2]@, p) ==> r2 * tt <= at < r2 * tt + tt
                        },
                    forall|p: int|
                        #![trigger self.spec_positions()[p * tt + r]]
                        0 <= p < pp && (exists|t2: int| 0 <= t2 < tb && #[trigger] round@[t2]@.contains(p as usize))
                            ==> r * tt <= self.spec_positions()[p * tt + r] < r * tt + tt,
                decreases round@.len() - tb,
            {
                let players = &round[tb];
                let mut i: usize = 0;
                proof {
                    lemma_bit_ops();
                }
                while i < players.len()
                    invariant
                        self.wf(),
                        self.spec_players() == pp,
                        self.spec_tables() == tt,
                        t == tt,
                        pc == pp,
                        tt * tt <= 65536,
                        data_ok(data@, pp, tt),
                        r < data@.len(),
                        round@ == data@[r as int]@,
                        tb < round@.len(),
                        players@ == round@[tb as int]@,
                        i <= players@.len(),
                        forall|p: int|
                            #![trigger self.spec_positions()[p * tt]]
                            0 <= p < pp && data@.len() > 0 && !plays_in(data@[0]@, p) ==> self.spec_positions()[p * tt] == 0,
                        forall|r2: int, t2: int|
                            0 <= r2 < tt && 0 <= t2 < tt ==> {
                                let w = #[trigger] game_at(self.spec_matches(), tt, r2, t2);
                                if (r2 < r && t2 < data@[r2]@.len()) || (r2 == r && t2 < tb) {
                                    forall|q: usize| bit(w, q as int) <==> data@[r2]@[t2]@.contains(q)
                                } else if r2 == r && t2 == tb {
                                    forall|q: usize| bit(w, q as int) <==> players@.subrange(0, i as int).contains(q)
                                } else {
                                    w == 0
                                }
                            },
                        forall|p: int, r2: int|
                            0 <= p < pp && 0 <= r2 < r && plays_in(data@[r2]@, p) ==> #[trigger] bit(
                                self.spec_matches()[self.spec_positions()[p * tt + r2] as int],
                                p,
                            ),
                        forall|p: int|
                            #![trigger self.spec_positions()[p * tt + r]]
                            0 <= p < pp && ((exists|t2: int| 0 <= t2 < tb && #[trigger] round@[t2]@.contains(p as usize))
                                || players@.subrange(0, i as int).contains(p as usize)) ==> bit(
                                self.spec_matches()[self.spec_positions()[p * tt + r] as int],
                                p,
                            ),
                        forall|p: int, r2: int|
                            0 <= p < pp && 0 <= r2 < tt ==> {
                                let at = #[trigger] self.spec_positions()[p * tt + r2];
                                r2 < r && plays_in(data@[r2]@, p) ==> r2 * tt <= at < r2 * tt + tt
                            },
                        forall|p: int|
                            #![trigger self.spec_positions()[p * tt + r]]
                            0 <= p < pp && ((exists|t2: int| 0 <= t2 < tb && #[trigger] round@[t2]@.contains(p as usize))
                                || players@.subrange(0, i as int).contains(p as usize)) ==> r * tt
                                <= self.spec_positions()[p * tt + r] < r * tt + tt,
                    decreases players@.len() - i,
                {
                    let q = players[i];
                    proof {
                        assert(q < pp);
                        assert(r * tt + tb < tt * tt) by (nonlinear_arith)
                            requires r < tt, tb < tt;
                        assert(q * tt + r < pp * tt) by (nonlinear_arith)
                            requires q < pp, r < tt;
                    }
                    let cell = r * t + tb;
                    let ghost m0 = self.matches@;
                    let ghost pos0 = self.player_positions@;
                    let old_word = self.matches[cell];
                    self.matches.set(cell, old_word | (1u64 << (q as u64)));
                    self.player_positions.set(q * t + r, cell as u16);
                    proof {
                        lemma_bit_ops();
                        let m1 = self.matches@;
                        let pos1 = self.player_positions@;
                        assert forall|p: int|
                            #![trigger pos1[p * tt]]
                            0 <= p < pp && data@.len() > 0 && !plays_in(data@[0]@, p) implies pos1[p * tt] == 0 by {
                            assert(0 <= p * tt < pp * tt) by (nonlinear_arith)
                                requires 0 <= p < pp, tt >= 1;
                            if p * tt == q * tt + r {
                                lemma_index_unique(p, 0, q as int, r as int, tt);
                                assert(players@[i as int] == q);
                                assert(data@[0]@[tb as int]@.contains(q));
                            }
                            assert(pos1[p * tt] == pos0[p * tt]);
                        }
                        assert forall|x: int| bit(m1[cell as int], x) <==> (bit(m0[cell as int], x) || x == q) by {}
                        assert forall|c: int| 0 <= c < tt * tt && c != cell implies m1[c] == m0[c] by {}
                        assert forall|c: int, x: int| 0 <= c < tt * tt && bit(m0[c], x) implies bit(m1[c], x) by {}
                        let sub0 = players@.subrange(0, i as int);
                        let sub1 = players@.subrange(0, i + 1);
                        assert forall|x: usize| sub1.contains(x) <==> (sub0.contains(x) || x == q) by {
                            if sub1.contains(x) {
                                let k = choose|k: int| 0 <= k < sub1.len() && sub1[k] == x;
                                if k < i {
                                    assert(sub0[k] == x);
                                }
                            }
                            if sub0.contains(x) {
                                let k = choose|k: int| 0 <= k < sub0.len() && sub0[k] == x;
                                assert(sub1[k] == x);
                            }
                            if x == q {
                                assert(sub1[i as int] == x);
                            }
                        }
                        assert forall|r2: int, t2: int| 0 <= r2 < tt && 0 <= t2 < tt implies {
                            let w = #[trigger] game_at(m1, tt, r2, t2);
                            if (r2 < r && t2 < data@[r2]@.len()) || (r2 == r && t2 < tb) {
                                forall|x: usize| bit(w, x as int) <==> data@[r2]@[t2]@.contains(x)
                            } else if r2 == r && t2 == tb {
                                forall|x: usize| bit(w, x as int) <==> sub1.contains(x)
                            } else {
                                w == 0
                            }
                        } by {
                            assert(0 <= r2 * tt + t2 < tt * tt) by (nonlinear_arith)
                                requires 0 <= r2 < tt, 0 <= t2 < tt;
                            if r2 * tt + t2 == cell {
                                lemma_index_unique(r2, t2, r as int, tb as int, tt);
                            }
                            let w0 = game_at(m0, tt, r2, t2);
                            if (r2 < r && t2 < data@[r2]@.len()) || (r2 == r && t2 < tb) {
                                assert(forall|x: usize| bit(w0, x as int) <==> data@[r2]@[t2]@.contains(x));
                            } else if r2 == r && t2 == tb {
                                assert(r2 * tt + t2 == cell);
                                assert(forall|x: usize| bit(w0, x as int) <==> sub0.contains(x));
                                assert forall|x: usize| bit(game_at(m1, tt, r2, t2), x as int) <==> sub1.contains(x) by {
                                    assert(bit(m1[cell as int], x as int) <==> (bit(m0[cell as int], x as int) || x == q));
                                    assert(sub1.contains(x) <==> (sub0.contains(x) || x == q));
                                }
                            } else {
                                assert(w0 == 0);
                            }
                        }
                        assert forall|p: int, r2: int|
                            0 <= p < pp && 0 <= r2 < r && plays_in(data@[r2]@, p) implies #[trigger] bit(
                                m1[pos1[p * tt + r2] as int],
                                p,
                            ) by {
                            lemma_index_bound(p, r2 as int, pp, tt);
                            if p * tt + r2 == q * tt + r {
                                lemma_index_unique(p, r2, q as int, r as int, tt);
                            }
                            assert(pos1[p * tt + r2] == pos0[p * tt + r2]);
                            assert(bit(m0[pos0[p * tt + r2] as int], p));
                        }
                        assert forall|p: int|
                            #![trigger pos1[p * tt + r]]
                            0 <= p < pp && ((exists|t2: int| 0 <= t2 < tb && #[trigger] round@[t2]@.contains(p as usize))
                                || sub1.contains(p as usize)) implies bit(m1[pos1[p * tt + r] as int], p) by {
                            lemma_index_bound(p, r as int, pp, tt);
                            if p != q {
                                if p * tt + r == q * tt + r {
                                    lemma_index_unique(p, r as int, q as int, r as int, tt);
                                }
                                assert(pos1[p * tt + r] == pos0[p * tt + r]);
                                assert(bit(m0[pos0[p * tt + r] as int], p));
                            } else {
                                assert(pos1[p * tt + r] == cell);
                            }
                        }
                        assert forall|p: int, r2: int| 0 <= p < pp && 0 <= r2 < tt implies {
                            let at = #[trigger] pos1[p * tt + r2];
                            r2 < r && plays_in(data@[r2]@, p) ==> r2 * tt <= at < r2 * tt + tt
                        } by {
                            lemma_index_bound(p, r2 as int, pp, tt);
                            if r2 < r {
                                if p * tt + r2 == q * tt + r {
                                    lemma_index_unique(p, r2, q as int, r as int, tt);
                                }
                                assert(pos1[p * tt + r2] == pos0[p * tt + r2]);
                            }
                        }
                        assert forall|p: int|
                            #![trigger pos1[p * tt + r]]
                            0 <= p < pp && ((exists|t2: int| 0 <= t2 < tb && #[trigger] round@[t2]@.contains(p as usize))
                                || sub1.contains(p as usize)) implies r * tt <= pos1[p * tt + r] < r * tt + tt by {
                            lemma_index_bound(p, r as int, pp, tt);
                            if p != q {
                                if p * tt + r == q * tt + r {
                                    lemma_index_unique(p, r as int, q as int, r as int, tt);
                                }
                                assert(pos1[p * tt + r] == pos0[p * tt + r]);
                            }
                        }
                        assert forall|k: int| 0 <= k < pp * tt implies (#[trigger] pos1[k]) < tt * tt by {
                            if k != q * tt + r {
                                assert(pos1[k] == pos0[k]);
                            }
                        }
                    }
                    i = i + 1;
                }
                proof {
                    assert(players@.subrange(0, players@.len() as int) =~= players@);
                    assert forall|p: int|
                        #![trigger self.spec_positions()[p * tt + r]]
                        0 <= p < pp && (exists|t2: int| 0 <= t2 < tb + 1 && #[trigger] round@[t2]@.contains(p as usize))
                            implies bit(self.spec_matches()[self.spec_positions()[p * tt + r] as int], p)
                            && r * tt <= self.spec_positions()[p * tt + r] < r * tt + tt by {
                        let t2 = choose|t2: int| 0 <= t2 < tb + 1 && #[trigger] round@[t2]@.contains(p as usize);
                        if t2 < tb {
                            assert(exists|t3: int| 0 <= t3 < tb && #[trigger] round@[t3]@.contains(p as usize));
                        }
                    }
                }
                tb = tb + 1;
            }
            proof {
                assert forall|p: int, r2: int|
                    0 <= p < pp && 0 <= r2 < r + 1 && plays_in(data@[r2]@, p) implies #[trigger] bit(
                        self.spec_matches()[self.spec_positions()[p * tt + r2] as int],
                        p,
                    ) by {
                    if r2 == r {
                        let t2 = choose|t2: int| 0 <= t2 < data@[r2]@.len() && #[trigger] data@[r2]@[t2]@.contains(p as usize);
                        assert(round@[t2]@.contains(p as usize));
                    }
                }
                assert forall|p: int, r2: int| 0 <= p < pp && 0 <= r2 < tt implies {
                    let at = #[trigger] self.spec_positions()[p * tt + r2];
                    r2 < r + 1 && plays_in(data@[r2]@, p) ==> r2 * tt <= at < r2 * tt + tt
                } by {
                    if r2 == r && plays_in(data@[r2]@, p) {
                        let t2 = choose|t2: int| 0 <= t2 < data@[r2]@.len() && #[trigger] data@[r2]@[t2]@.contains(p as usize);
                        assert(round@[t2]@.contains(p as usize));
                    }
                }
            }
            r = r + 1;
        }
        proof {
            let m = self.spec_matches();
            let pos = self.spec_positions();
            assert forall|p: int| 0 <= p < pp implies #[trigger] meets_someone(m, pos, tt, p) by {
                if plays_somewhere(data@, p) {
                    let r2 = choose|r2: int| 0 <= r2 < data@.len() && #[trigger] plays_in(data@[r2]@, p);
                    assert(bit(m[pos[p * tt + r2] as int], p));
                } else {
                    assert(first_game_taken(data@));
                    if plays_in(data@[0]@, p) {
                        assert(plays_somewhere(data@, p));
                    }
                    assert(pos[p * tt] == 0);
                    let q = data@[0]@[0]@[0];
                    assert(data@[0]@[0]@.contains(q));
                    assert(game_at(m, tt, 0, 0) == m[0]);
                    assert(bit(m[pos[p * tt + 0] as int], q as int));
                }
            }
            lemma_opponents_sum_at_least(m, pos, tt, pp);
            if data@.len() == tt && (forall|r2: int| 0 <= r2 < tt ==> (#[trigger] data@[r2]@).len() == tt) && (forall|
                r2: int,
                p: int,
            | 0 <= r2 < tt && 0 <= p < pp ==> #[trigger] plays_in(data@[r2]@, p)) && rounds_partition(data@) {
                assert(games_from(m, data@, tt));
                lemma_import_seated(m, pos, data@, tt, pp);
            }
        }
        self.find_unique_opponents();
        self.find_unique_games_played();
    }

    /// A schedule of `player_count` players at `tables` tables with the games of
    /// `data`.
    pub fn from_vec(player_count: usize, tables: usize, data: Vec<Vec<Vec<usize>>>) -> (r: Self)
        requires
            sizes_ok(player_count as int, tables as int),
            data_ok(data@, player_count as int, tables as int),
        ensures
            r.wf(),
            r.caches_ok(),
            r.spec_players() == player_count,
            r.spec_tables() == tables,
            games_from(r.spec_matches(), data@, tables as int),
            forall|p: int, q: int|
                0 <= p < player_count && 0 <= q < data@.len() && plays_in(data@[q]@, p) ==> #[trigger] bit(
                    r.spec_matches()[r.spec_positions()[p * tables + q] as int],
                    p,
                ),
            forall|p: int, q: int|
                0 <= p < player_count && 0 <= q < tables ==> {
                    let at = #[trigger] r.spec_positions()[p * tables + q];
                    q < data@.len() && plays_in(data@[q]@, p) ==> q * tables <= at < q * tables + tables
                },
            opponents_sum(r.spec_matches(), r.spec_positions(), r.spec_tables(), r.spec_players()) >= r.spec_players(),
            data@.len() == tables && (forall|r: int| 0 <= r < tables ==> (#[trigger] data@[r]@).len() == tables) && (forall|
                r: int,
                p: int,
            | 0 <= r < tables && 0 <= p < player_count ==> #[trigger] plays_in(data@[r]@, p)) && rounds_partition(data@)
                ==> r.is_seated(),
    {
        let mut new = Self::new(player_count, tables);
        new.import_vec(data);
        new
    }
}

/// The index `p * t + r` of a player below `pp` and a round lies below `pp * t`.
proof fn lemma_index_bound(p: int, r: int, pp: int, t: int)
    requires
        0 <= p < pp,
        0 <= r < t,
    ensures
        0 <= p * t + r < pp * t,
{
    assert(p * t <= (pp - 1) * t) by (nonlinear_arith) requires p <= pp - 1, t >= 0;
    assert((pp - 1) * t + t == pp * t) by (nonlinear_arith);
    assert(p * t >= 0) by (nonlinear_arith) requires p >= 0, t >= 0;
}

/// The index `p * t + r` of a player and a round determines both.
proof fn lemma_index_unique(p: int, r: int, q: int, s: int, t: int)
    requires
        0 <= r < t,
        0 <= s < t,
        0 <= p,
        0 <= q,
        p * t + r == q * t + s,
    ensures
        p == q,
        r == s,
{
    crate::scheduler::lemma_div_mod_pub(p, r, t);
    crate::scheduler::lemma_div_mod_pub(q, s, t);
}

/// Deals the players of `list` over `tables` tables: the player at index `i`
/// goes to table `(i + offset) % tables`, in list order.
fn deal_round(list: &Vec<usize>, tables: usize, offset: usize) -> (r: Vec<Vec<usize>>)
    requires
        1 <= tables <= 256,
        offset < tables,
        list@.len() <= 64,
    ensures
        r@.len() == tables,
        forall|t: int, x: usize|
            0 <= t < tables ==> (#[trigger] r@[t]@.contains(x) <==> exists|i: int|
                0 <= i < list@.len() && list@[i] == x && (i + offset) % (tables as int) == t),
{
    let mut round: Vec<Vec<usize>> = Vec::new();
    let mut t: usize = 0;
    while t < tables
        invariant
            1 <= tables <= 256,
            offset < tables,
            list@.len() <= 64,
            t <= tables,
            round@.len() == t,
            forall|t2: int, x: usize|
                0 <= t2 < t ==> (#[trigger] round@[t2]@.contains(x) <==> exists|i: int|
                    0 <= i < list@.len() && list@[i] == x && (i + offset) % (tables as int) == t2),
        decreases tables - t,
    {
        let mut v: Vec<usize> = Vec::new();
        let mut i: usize = 0;
        while i < list.len()
            invariant
                1 <= tables <= 256,
                offset < tables,
                list@.len() <= 64,
                t < tables,
                i <= list@.len(),
                forall|x: usize|
                    v@.contains(x) <==> exists|j: int|
                        0 <= j < i && list@[j] == x && (j + offset) % (tables as int) == t,
            decreases list@.len() - i,
        {
            if (i + offset) % tables == t {
                let ghost v0 = v@;
                v.push(list[i]);
                proof {
                    assert forall|x: usize| v@.contains(x) <==> exists|j: int|
                        0 <= j < i + 1 && list@[j] == x && (j + offset) % (tables as int) == t by {
                        if v@.contains(x) {
                            let k = choose|k: int| 0 <= k < v@.len() && v@[k] == x;
                            if k < v0.len() {
                                assert(v0[k] == x);
                                assert(v0.contains(x));
                            } else {
                                assert(list@[i as int] == x);
                            }
                        }
                        if exists|j: int| 0 <= j < i + 1 && list@[j] == x && (j + offset) % (tables as int) == t {
                            let j = choose|j: int| 0 <= j < i + 1 && list@[j] == x && (j + offset) % (tables as int) == t;
                            if j < i {
                                assert(v0.contains(x));
                                let k = choose|k: int| 0 <= k < v0.len() && v0[k] == x;
                                assert(v@[k] == x);
                            } else {
                                assert(v@[v0.len() as int] == x);
                            }
                        }
                    }
                }
            } else {
                proof {
                    assert forall|x: usize| v@.contains(x) <==> exists|j: int|
                        0 <= j < i + 1 && list@[j] == x && (j + offset) % (tables as int) == t by {
                        if exists|j: int| 0 <= j < i + 1 && list@[j] == x && (j + offset) % (tables as int) == t {
                            let j = choose|j: int| 0 <= j < i + 1 && list@[j] == x && (j + offset) % (tables as int) == t;
                            assert(j != i);
                        }
                    }
                }
            }
            i = i + 1;
        }
        round.push(v);
        t = t + 1;
    }
    round
}

/// The players `0..n`.
fn player_list(n: usize) -> (r: Vec<usize>)
    requires
        n <= 64,
    ensures
        r@.len() == n,
        forall|i: int| 0 <= i < n ==> r@[i] == i,
{
    let mut v: Vec<usize> = Vec::new();
    let mut i: usize = 0;
    while i < n
        invariant
            i <= n,
            v@.len() == i,
            forall|j: int| 0 <= j < i ==> v@[j] == j,
        decreases n - i,
    {
        v.push(i);
        i = i + 1;
    }
    v
}

/// The players at a table in the first `k` rounds are those at the table in one
/// of those rounds.
proof fn lemma_table_union_bits(m: Seq<u64>, tables: int, table: int, k: int, x: int)
    ensures
        bit(table_union(m, tables, table, k), x) <==> exists|r: int| 0 <= r < k && #[trigger] bit(game_at(m, tables, r, table), x),
    decreases k,
{
    lemma_bit_ops();
    if k > 0 {
        lemma_table_union_bits(m, tables, table, k - 1, x);
        if bit(table_union(m, tables, table, k), x) {
            if bit(table_union(m, tables, table, k - 1), x) {
                let r = choose|r: int| 0 <= r < k - 1 && #[trigger] bit(game_at(m, tables, r, table), x);
                assert(bit(game_at(m, tables, r, table), x));
            } else {
                assert(bit(game_at(m, tables, k - 1, table), x));
            }
        }
    }
}

/// A word whose players are exactly `0..n` counts `n` players.
proof fn lemma_pop_exact(w: u64, n: int)
    requires
        0 <= n <= 64,
        forall|x: int| bit(w, x) <==> 0 <= x < n,
    ensures
        pop(w, 64) == n,
{
    lemma_pop_card(w, 64);
    vstd::set_lib::lemma_int_range(0, n);
    assert(Set::new(|i: int| 0 <= i < 64 && bit(w, i)) =~= vstd::set_lib::set_int_range(0, n));
}

/// Tables at which every player sat in some round count every player.
proof fn lemma_games_sum_full(m: Seq<u64>, tables: int, players: int, k: int)
    requires
        0 <= players <= 64,
        forall|t: int, x: int|
            0 <= t < k ==> (#[trigger] bit(table_union(m, tables, t, tables), x) <==> 0 <= x < players),
    ensures
        games_sum(m, tables, k) == players * (if k < 0 { 0 } else { k }),
    decreases k,
{
    if k > 0 {
        lemma_games_sum_full(m, tables, players, k - 1);
        let w = table_union(m, tables, k - 1, tables);
        assert(forall|x: int| bit(w, x) <==> 0 <= x < players);
        lemma_pop_exact(w, players);
        assert(players * (k - 1) + players == players * k) by (nonlinear_arith);
    }
}

impl Schedule {
    /// Fills the schedule round by round with players `0..player_count`: in
    /// round `r`, player `i` sits at table `(i + r) % tables`.
    pub fn normal_fill(&mut self)
        requires
            old(self).wf(),
        ensures
            final(self).wf(),
            final(self).caches_ok(),
            final(self).spec_players() == old(self).spec_players(),
            final(self).spec_tables() == old(self).spec_tables(),
            forall|r: int, t: int, x: usize|
                0 <= r < final(self).spec_tables() && 0 <= t < final(self).spec_tables() ==> (#[trigger] bit(
                    game_at(final(self).spec_matches(), final(self).spec_tables(), r, t),
                    x as int,
                ) <==> (x < final(self).spec_players() && (x + r) % final(self).spec_tables() == t)),
            final(self).games_total() == final(self).spec_ideal_games(),
            final(self).is_seated(),
            opponents_sum(final(self).spec_matches(), final(self).spec_positions(), final(self).spec_tables(), final(self).spec_players())
                >= final(self).spec_players(),
    {
        let list = player_list(self.player_count);
        let t = self.tables;
        let ghost tt = t as int;
        let ghost pp = self.spec_players();
        let mut game: Vec<Vec<Vec<usize>>> = Vec::new();
        let mut offset: usize = 0;
        while offset < t
            invariant
                1 <= tt <= 256,
                t == tt,
                0 <= pp <= 64,
                list@.len() == pp,
                forall|i: int| 0 <= i < pp ==> list@[i] == i,
                offset <= tt,
                game@.len() == offset,
                forall|r: int| 0 <= r < offset ==> (#[trigger] game@[r]@).len() == tt,
                forall|r: int, t2: int, x: usize|
                    0 <= r < offset && 0 <= t2 < tt ==> (#[trigger] game@[r]@[t2]@.contains(x) <==> (x < pp && (x + r) % tt
                        == t2)),
            decreases tt - offset,
        {
            let round = deal_round(&list, t, offset);
            proof {
                assert forall|t2: int, x: usize| 0 <= t2 < tt implies (#[trigger] round@[t2]@.contains(x) <==> (x < pp && (x
                    + offset) % tt == t2)) by {
                    if x < pp && (x + offset) % tt == t2 {
                        assert(list@[x as int] == x);
                    }
                }
            }
            game.push(round);
            offset = offset + 1;
        }
        proof {
            assert forall|r: int, t2: int, i: int|
                0 <= r < game@.len() && 0 <= t2 < game@[r]@.len() && 0 <= i < game@[r]@[t2]@.len() implies (
                #[trigger] game@[r]@[t2]@[i]) < pp by {
                assert(game@[r]@[t2]@.contains(game@[r]@[t2]@[i]));
            }
            assert forall|p: int| 0 <= p < pp implies #[trigger] plays_somewhere(game@, p) by {
                let t2 = (p % tt) as int;
                let r2: int = if t2 == 0 { 0 } else { tt - t2 };
                assert(0 <= t2 < tt) by (nonlinear_arith) requires tt >= 1, p >= 0, t2 == p % tt;
                lemma_round_for(p, tt);
                assert(game@[r2]@[0]@.contains(p as usize));
                assert(plays_in(game@[r2]@, p));
            }
        }
        proof {
            assert forall|r: int, p: int| 0 <= r < tt && 0 <= p < pp implies #[trigger] plays_in(game@[r]@, p) by {
                let t2 = lemma_round_to_table(p, 0, tt) ;
                let tp = (p + r) % tt;
                assert(0 <= tp < tt) by (nonlinear_arith) requires tt >= 1, tp == (p + r) % tt, p >= 0, r >= 0;
                assert(game@[r]@[tp]@.contains(p as usize));
            }
            assert forall|r: int, t1: int, t2: int, x: usize|
                0 <= r < game@.len() && 0 <= t1 < game@[r]@.len() && 0 <= t2 < game@[r]@.len() && #[trigger] game@[r]@[t1]@.contains(x)
                    && #[trigger] game@[r]@[t2]@.contains(x) implies t1 == t2 by {}
        }
        let ghost data = game@;
        self.import_vec(game);
        proof {
            lemma_import_seated(self.spec_matches(), self.spec_positions(), data, tt, pp);
            let m = self.spec_matches();
            assert forall|t2: int, x: int| 0 <= t2 < tt implies (#[trigger] bit(table_union(m, tt, t2, tt), x) <==> 0 <= x < pp) by {
                lemma_table_union_bits(m, tt, t2, tt, x);
                if 0 <= x < pp {
                    let r2 = lemma_round_to_table(x, t2, tt);
                    assert(bit(game_at(m, tt, r2, t2), x));
                }
                if bit(table_union(m, tt, t2, tt), x) {
                    let r2 = choose|r2: int| 0 <= r2 < tt && #[trigger] bit(game_at(m, tt, r2, t2), x);
                    assert(bit(game_at(m, tt, r2, t2), (x as usize) as int));
                }
            }
            lemma_games_sum_full(m, tt, pp, tt);
        }
    }
}

/// Player `p` sits at table 0 in round `(tables - p % tables) % tables`.
proof fn lemma_round_for(p: int, tables: int)
    requires
        p >= 0,
        tables >= 1,
    ensures
        ({
            let t2 = p % tables;
            let r2: int = if t2 == 0 { 0 } else { tables - t2 };
            &&& 0 <= r2 < tables
            &&& (p + r2) % tables == 0
        }),
{
    let r2 = lemma_round_to_table(p, 0, tables);
    let t2 = p % tables;
    let r3: int = if t2 == 0 { 0 } else { tables - t2 };
    assert(p == tables * (p / tables) + t2) by (nonlinear_arith) requires tables >= 1, t2 == p % tables;
    assert(0 <= t2 < tables) by (nonlinear_arith) requires tables >= 1, t2 == p % tables;
    if t2 == 0 {
        assert(p + r3 == (p / tables) * tables + 0) by (nonlinear_arith)
            requires p == tables * (p / tables), r3 == 0;
        vstd::arithmetic::div_mod::lemma_fundamental_div_mod_converse_mod(p + r3, tables, p / tables, 0);
    } else {
        assert(p + r3 == (p / tables + 1) * tables + 0) by (nonlinear_arith)
            requires p == tables * (p / tables) + t2, r3 == tables - t2;
        vstd::arithmetic::div_mod::lemma_fundamental_div_mod_converse_mod(p + r3, tables, p / tables + 1, 0);
    }
}

/// Player `x` sits at table `t` in some round when each round shifts the tables
/// by one.
proof fn lemma_round_to_table(x: int, t: int, tables: int) -> (r: int)
    requires
        x >= 0,
        0 <= t < tables,
    ensures
        0 <= r < tables,
        (x + r) % tables == t,
{
    let xm = x % tables;
    assert(x == tables * (x / tables) + xm) by (nonlinear_arith) requires tables >= 1, xm == x % tables;
    assert(0 <= xm < tables) by (nonlinear_arith) requires tables >= 1, xm == x % tables;
    if t >= xm {
        let r = t - xm;
        assert(x + r == (x / tables) * tables + t) by (nonlinear_arith)
            requires x == tables * (x / tables) + xm, r == t - xm;
        vstd::arithmetic::div_mod::lemma_fundamental_div_mod_converse_mod(x + r, tables, x / tables, t);
        r
    } else {
        let r = t - xm + tables;
        assert(x + r == (x / tables + 1) * tables + t) by (nonlinear_arith)
            requires x == tables * (x / tables) + xm, r == t - xm + tables;
        vstd::arithmetic::div_mod::lemma_fundamental_div_mod_converse_mod(x + r, tables, x / tables + 1, t);
        r
    }
}

/// Every game holds only players below `players`.
pub open spec fn players_only(m: Seq<u64>, tables: int, players: int) -> bool {
    forall|r: int, t: int, x: int|
        0 <= r < tables && 0 <= t < tables && #[trigger] bit(game_at(m, tables, r, t), x) ==> x < players
}

/// A table at which only players below `players` sat counts at most `players`.
proof fn lemma_pop_below(w: u64, players: int)
    requires
        0 <= players <= 64,
        forall|x: int| bit(w, x) ==> x < players,
    ensures
        pop(w, 64) <= players,
{
    lemma_pop_card(w, 64);
    vstd::set_lib::lemma_int_range(0, players);
    let s = Set::new(|i: int| 0 <= i < 64 && bit(w, i));
    assert(s.subset_of(vstd::set_lib::set_int_range(0, players)));
    vstd::set_lib::lemma_len_subset(s, vstd::set_lib::set_int_range(0, players));
}

/// Tables at which only players below `players` sat count at most `players` each.
proof fn lemma_games_sum_below(m: Seq<u64>, tables: int, players: int, k: int)
    requires
        0 <= players <= 64,
        k <= tables,
        players_only(m, tables, players),
    ensures
        games_sum(m, tables, k) <= players * (if k < 0 { 0 } else { k }),
    decreases k,
{
    if k > 0 {
        lemma_games_sum_below(m, tables, players, k - 1);
        let w = table_union(m, tables, k - 1, tables);
        assert forall|x: int| bit(w, x) implies x < players by {
            lemma_table_union_bits(m, tables, k - 1, tables, x);
            let r = choose|r: int| 0 <= r < tables && #[trigger] bit(game_at(m, tables, r, k - 1), x);
        }
        lemma_pop_below(w, players);
        assert(players * (k - 1) + players == players * k) by (nonlinear_arith);
    }
}

/// No schedule whose games hold only its players has more tables played at than
/// the ideal: each table counts each player at most once.
pub proof fn lemma_games_at_most_ideal(s: &Schedule)
    requires
        s.wf(),
        players_only(s.spec_matches(), s.spec_tables(), s.spec_players()),
    ensures
        s.games_total() <= s.spec_ideal_games(),
{
    lemma_games_sum_below(s.spec_matches(), s.spec_tables(), s.spec_players(), s.spec_tables());
}

/// The kept score of a schedule whose kept totals are up to date is the score
/// computed from its games and positions.
pub proof fn lemma_cached_score(s: &Schedule)
    requires
        s.caches_ok(),
    ensures
        s.cached_score() == s.score(),
{
}

/// `rng` as a random number generator of the schedules.
#[verifier::external_type_specification]
#[verifier::external_body]
pub struct ExXorShiftRng(rand_xorshift::XorShiftRng);

/// Draws a number with `rand::Rng::gen` for `usize`; any number may come back.
#[verifier::external_body]
fn random_usize(rng: &mut rand_xorshift::XorShiftRng) -> usize {
    rng.gen::<usize>()
}

/// Shuffles `players` with `rand::seq::SliceRandom::shuffle`, which only swaps
/// elements: the same players come back, in an order that depends on `rng`.
#[verifier::external_body]
fn shuffle_players(players: &mut Vec<usize>, rng: &mut rand_xorshift::XorShiftRng)
    ensures
        final(players)@.to_multiset() == old(players)@.to_multiset(),
{
    players.as_mut_slice().shuffle(rng);
}

impl Schedule {
    /// Fills the schedule with random rounds: each round shuffles the players
    /// and deals them over the tables from a random first table.
    pub fn generate_random(&mut self, rng: &mut rand_xorshift::XorShiftRng)
        requires
            old(self).wf(),
        ensures
            final(self).wf(),
            final(self).caches_ok(),
            final(self).spec_players() == old(self).spec_players(),
            final(self).spec_tables() == old(self).spec_tables(),
            players_only(final(self).spec_matches(), final(self).spec_tables(), final(self).spec_players()),
            final(self).is_seated(),
            opponents_sum(final(self).spec_matches(), final(self).spec_positions(), final(self).spec_tables(), final(self).spec_players())
                >= final(self).spec_players(),
            balanced(final(self).spec_matches(), final(self).spec_tables(), final(self).spec_players()),
            final(self).games_total() <= final(self).spec_ideal_games(),
            final(self).opponents_total() <= final(self).spec_ideal_opponents(),
    {
        let mut list = player_list(self.player_count);
        let ghost start = list@;
        let t = self.tables;
        let ghost tt = t as int;
        let ghost pp = self.spec_players();
        let mut game: Vec<Vec<Vec<usize>>> = Vec::new();
        let mut round: usize = 0;
        while round < t
            invariant
                1 <= tt <= 256,
                t == tt,
                0 <= pp <= 64,
                start.len() == pp,
                forall|i: int| 0 <= i < pp ==> start[i] == i,
                list@.to_multiset() == start.to_multiset(),
                round <= tt,
                game@.len() == round,
                forall|r: int| 0 <= r < round ==> (#[trigger] game@[r]@).len() == tt,
                forall|r: int, t2: int, x: usize|
                    0 <= r < round && 0 <= t2 < tt ==> (#[trigger] game@[r]@[t2]@.contains(x) ==> x < pp),
                forall|r: int, p: int| 0 <= r < round && 0 <= p < pp ==> #[trigger] plays_in(game@[r]@, p),
                forall|r: int, t1: int, t2: int, x: usize|
                    0 <= r < round && 0 <= t1 < game@[r]@.len() && 0 <= t2 < game@[r]@.len() && #[trigger] game@[r]@[t1]@.contains(x)
                        && #[trigger] game@[r]@[t2]@.contains(x) ==> t1 == t2,
                forall|r: int, t2: int|
                    0 <= r < round && 0 <= t2 < tt ==> #[trigger] member_set(game@[r]@[t2]@).len() <= share(pp, tt),
            decreases tt - round,
        {
            let offset = random_usize(rng);
            shuffle_players(&mut list, rng);
            proof {
                list@.to_multiset_ensures();
                start.to_multiset_ensures();
                assert(list@.len() == pp);
            }
            let dealt = deal_round(&list, t, offset % t);
            proof {
                assert(start.no_duplicates()) by {
                    assert forall|i: int, j: int| 0 <= i < start.len() && 0 <= j < start.len() && i != j implies start[i] != start[j] by {}
                }
                start.lemma_multiset_has_no_duplicates();
                assert forall|x: usize| list@.to_multiset().contains(x) implies list@.to_multiset().count(x) == 1 by {
                    assert(start.to_multiset().contains(x));
                }
                list@.lemma_multiset_has_no_duplicates_conv();
                assert forall|t1: int, t2: int, x: usize|
                    0 <= t1 < dealt@.len() && 0 <= t2 < dealt@.len() && #[trigger] dealt@[t1]@.contains(x)
                        && #[trigger] dealt@[t2]@.contains(x) implies t1 == t2 by {
                    let i1 = choose|i: int| 0 <= i < list@.len() && list@[i] == x && (i + offset % t) % (tt as int) == t1;
                    let i2 = choose|i: int| 0 <= i < list@.len() && list@[i] == x && (i + offset % t) % (tt as int) == t2;
                    assert(i1 == i2);
                }
                assert forall|t2: int, x: usize| 0 <= t2 < tt && #[trigger] dealt@[t2]@.contains(x) implies x < pp by {
                    let i = choose|i: int| 0 <= i < list@.len() && list@[i] == x && (i + offset % t) % (tt as int) == t2;
                    assert(list@.contains(x));
                    assert(list@.to_multiset().count(x) > 0);
                    assert(start.to_multiset().count(x) > 0);
                    assert(start.contains(x));
                }
                assert forall|p: int| 0 <= p < pp implies #[trigger] plays_in(dealt@, p) by {
                    assert(start[p] == p);
                    assert(start.contains(p as usize));
                    assert(start.to_multiset().count(p as usize) > 0);
                    assert(list@.to_multiset().count(p as usize) > 0);
                    assert(list@.contains(p as usize));
                    let i = choose|i: int| 0 <= i < list@.len() && list@[i] == p as usize;
                    let t2 = (i + offset % t) % (tt as int);
                    assert(0 <= t2 < tt) by (nonlinear_arith) requires tt >= 1, t2 == (i + offset % t) % (tt as int), i >= 0;
                    assert(dealt@[t2]@.contains(p as usize));
                }
                assert forall|t2: int| 0 <= t2 < tt implies #[trigger] member_set(dealt@[t2]@).len() <= share(pp, tt) by {
                    lemma_deal_share(list@, dealt@[t2]@, tt, (offset % t) as int, t2);
                }
            }
            game.push(dealt);
            round = round + 1;
        }
        proof {
            assert forall|r: int, t2: int, i: int|
                0 <= r < game@.len() && 0 <= t2 < game@[r]@.len() && 0 <= i < game@[r]@[t2]@.len() implies (
                #[trigger] game@[r]@[t2]@[i]) < pp by {
                assert(game@[r]@[t2]@.contains(game@[r]@[t2]@[i]));
            }
            assert forall|p: int| 0 <= p < pp implies #[trigger] plays_somewhere(game@, p) by {
                assert(plays_in(game@[0]@, p));
            }
            assert forall|r: int, t2: int, x: usize| 0 <= r < tt && 0 <= t2 < tt && #[trigger] game@[r]@[t2]@.contains(x) implies x < pp by {}
        }
        let ghost data = game@;
        self.import_vec(game);
        proof {
            lemma_import_seated(self.spec_matches(), self.spec_positions(), data, tt, pp);
            let m = self.spec_matches();
            assert forall|r: int, t2: int, x: int|
                0 <= r < tt && 0 <= t2 < tt && #[trigger] bit(game_at(m, tt, r, t2), x) implies x < pp by {
                assert(0 <= x < 64);
                assert(bit(game_at(m, tt, r, t2), (x as usize) as int));
            }
            assert forall|r: int, t2: int| 0 <= r < tt && 0 <= t2 < tt implies pop(#[trigger] game_at(m, tt, r, t2), 64)
                <= share(pp, tt) by {
                let w = game_at(m, tt, r, t2);
                lemma_pop_is_len(w);
                assert(crate::bits::word_set(w) =~= member_set(data[r]@[t2]@)) by {
                    assert forall|x: int| crate::bits::word_set(w).contains(x) <==> member_set(data[r]@[t2]@).contains(x) by {
                        if 0 <= x < 64 {
                            assert(bit(w, (x as usize) as int) <==> data[r]@[t2]@.contains(x as usize));
                        }
                    }
                }
            }
            lemma_games_at_most_ideal(self);
            lemma_opponents_at_most_ideal(self);
        }
    }
}

/// Every player sits at exactly one table each round: its position in a round
/// is a game of that round that holds it, and a game holds only players whose
/// position is that game.
pub open spec fn seated(m: Seq<u64>, pos: Seq<u16>, tables: int, players: int) -> bool {
    &&& forall|p: int, r: int|
        0 <= p < players && 0 <= r < tables ==> {
            let c = #[trigger] pos[p * tables + r] as int;
            &&& r * tables <= c < r * tables + tables
            &&& bit(m[c], p)
        }
    &&& forall|r: int, t: int, x: int|
        0 <= r < tables && 0 <= t < tables && #[trigger] bit(game_at(m, tables, r, t), x) ==> x < players
            && pos[x * tables + r] == r * tables + t
}

/// No player sits at two tables of a round of `data`.
pub open spec fn rounds_partition(data: Seq<Vec<Vec<usize>>>) -> bool {
    forall|r: int, t1: int, t2: int, x: usize|
        0 <= r < data.len() && 0 <= t1 < data[r]@.len() && 0 <= t2 < data[r]@.len() && #[trigger] data[r]@[t1]@.contains(x)
            && #[trigger] data[r]@[t2]@.contains(x) ==> t1 == t2
}

impl Schedule {
    /// Every player sits at exactly one table each round.
    pub open spec fn is_seated(&self) -> bool {
        seated(self.spec_matches(), self.spec_positions(), self.spec_tables(), self.spec_players())
    }
}

/// Games taken in from rounds in which every player sits at exactly one table
/// seat every player.
proof fn lemma_import_seated(
    m: Seq<u64>,
    pos: Seq<u16>,
    data: Seq<Vec<Vec<usize>>>,
    tables: int,
    players: int,
)
    requires
        1 <= tables,
        0 <= players,
        data.len() == tables,
        forall|r: int| 0 <= r < tables ==> (#[trigger] data[r]@).len() == tables,
        forall|r: int, p: int| 0 <= r < tables && 0 <= p < players ==> #[trigger] plays_in(data[r]@, p),
        forall|r: int, t: int, x: usize| 0 <= r < tables && 0 <= t < tables && #[trigger] data[r]@[t]@.contains(x) ==> x < players,
        rounds_partition(data),
        games_from(m, data, tables),
        forall|p: int, r: int|
            0 <= p < players && 0 <= r < data.len() && plays_in(data[r]@, p) ==> #[trigger] bit(
                m[pos[p * tables + r] as int],
                p,
            ),
        forall|p: int, r: int|
            0 <= p < players && 0 <= r < tables ==> {
                let at = #[trigger] pos[p * tables + r];
                r < data.len() && plays_in(data[r]@, p) ==> r * tables <= at < r * tables + tables
            },
    ensures
        seated(m, pos, tables, players),
{
    assert forall|p: int, r: int| 0 <= p < players && 0 <= r < tables implies {
        let c = #[trigger] pos[p * tables + r] as int;
        &&& r * tables <= c < r * tables + tables
        &&& bit(m[c], p)
    } by {
        assert(plays_in(data[r]@, p));
    }
    assert forall|r: int, t: int, x: int|
        0 <= r < tables && 0 <= t < tables && #[trigger] bit(game_at(m, tables, r, t), x) implies x < players
            && pos[x * tables + r] == r * tables + t by {
        assert(0 <= x < 64);
        let xu = x as usize;
        assert(bit(game_at(m, tables, r, t), xu as int));
        assert(data[r]@[t]@.contains(xu));
        assert(x < players);
        assert(plays_in(data[r]@, x));
        let c = pos[x * tables + r] as int;
        assert(bit(m[c], x));
        let t2 = c - r * tables;
        assert(game_at(m, tables, r, t2) == m[c]);
        assert(bit(game_at(m, tables, r, t2), xu as int));
        assert(data[r]@[t2]@.contains(xu));
    }
}

/// The games after player `p1` of `table1` and player `p2` of `table2` trade
/// places in `round`.
pub open spec fn swap_matches(m: Seq<u64>, tables: int, round: int, table1: int, table2: int, p1: int, p2: int) -> Seq<u64> {
    let c1 = round * tables + table1;
    let c2 = round * tables + table2;
    m.update(c1, (m[c1] & !(1u64 << (p1 as u64))) | (1u64 << (p2 as u64))).update(
        c2,
        (m[c2] & !(1u64 << (p2 as u64))) | (1u64 << (p1 as u64)),
    )
}

/// The positions after players `p1` and `p2` trade places in `round`.
pub open spec fn swap_positions(pos: Seq<u16>, tables: int, round: int, p1: int, p2: int) -> Seq<u16> {
    let i1 = p1 * tables + round;
    let i2 = p2 * tables + round;
    pos.update(i1, pos[i2]).update(i2, pos[i1])
}

impl Schedule {
    /// Whether `p1` of `table1` and `p2` of `table2` may trade places in `round`.
    pub open spec fn is_swap(&self, round: int, table1: int, table2: int, p1: int, p2: int) -> bool {
        &&& 0 <= p1 < self.spec_players()
        &&& 0 <= p2 < self.spec_players()
        &&& bit(game_at(self.spec_matches(), self.spec_tables(), round, table1), p1)
        &&& bit(game_at(self.spec_matches(), self.spec_tables(), round, table2), p2)
    }

    /// The total of tables played at after the trade.
    pub open spec fn swap_games(&self, round: int, table1: int, table2: int, p1: int, p2: int) -> int {
        games_sum(
            swap_matches(self.spec_matches(), self.spec_tables(), round, table1, table2, p1, p2),
            self.spec_tables(),
            self.spec_tables(),
        )
    }

    /// The score after the trade.
    pub open spec fn swap_score(&self, round: int, table1: int, table2: int, p1: int, p2: int) -> int {
        score_of(
            opponents_sum(
                swap_matches(self.spec_matches(), self.spec_tables(), round, table1, table2, p1, p2),
                swap_positions(self.spec_positions(), self.spec_tables(), round, p1, p2),
                self.spec_tables(),
                self.spec_players(),
            ) - self.spec_players(),
            self.swap_games(round, table1, table2, p1, p2),
            self.spec_ideal_games(),
            self.spec_ideal_opponents(),
        )
    }
}

/// Kept counts that agree with the games sum to the opponent total.
proof fn lemma_counts_sum(c: Seq<u8>, m: Seq<u64>, pos: Seq<u16>, tables: int, k: int)
    requires
        forall|p: int| 0 <= p < k ==> #[trigger] c[p] == opponent_count(m, pos, tables, p),
    ensures
        counts_sum(c, k) == opponents_sum(m, pos, tables, k),
    decreases k,
{
    if k > 0 {
        lemma_counts_sum(c, m, pos, tables, k - 1);
    }
}

/// Seated players sit somewhere, so the opponent total counts each at least once.
pub proof fn lemma_seated_sum(m: Seq<u64>, pos: Seq<u16>, tables: int, players: int)
    requires
        seated(m, pos, tables, players),
        1 <= tables,
        0 <= players,
    ensures
        opponents_sum(m, pos, tables, players) >= players,
{
    assert forall|p: int| 0 <= p < players implies #[trigger] meets_someone(m, pos, tables, p) by {
        let c = pos[p * tables + 0] as int;
        assert(bit(m[pos[p * tables + 0] as int], p));
    }
    lemma_opponents_sum_at_least(m, pos, tables, players);
}

/// Two seated players of different tables of a round that trade places leave
/// every player seated.
proof fn lemma_swap_seated(
    m: Seq<u64>,
    pos: Seq<u16>,
    tables: int,
    players: int,
    round: int,
    table1: int,
    table2: int,
    p1: int,
    p2: int,
)
    requires
        seated(m, pos, tables, players),
        0 <= players <= 64,
        1 <= tables,
        m.len() == tables * tables,
        pos.len() == players * tables,
        0 <= round < tables,
        0 <= table1 < tables,
        0 <= table2 < tables,
        table1 != table2,
        0 <= p1 < players,
        0 <= p2 < players,
        bit(game_at(m, tables, round, table1), p1),
        bit(game_at(m, tables, round, table2), p2),
    ensures
        seated(
            swap_matches(m, tables, round, table1, table2, p1, p2),
            swap_positions(pos, tables, round, p1, p2),
            tables,
            players,
        ),
{
    lemma_bit_ops();
    let c1 = round * tables + table1;
    let c2 = round * tables + table2;
    let m2 = swap_matches(m, tables, round, table1, table2, p1, p2);
    let pos2 = swap_positions(pos, tables, round, p1, p2);
    let i1 = p1 * tables + round;
    let i2 = p2 * tables + round;
    lemma_index_bound(round, table1, tables, tables);
    lemma_index_bound(round, table2, tables, tables);
    lemma_index_bound(p1, round, players, tables);
    lemma_index_bound(p2, round, players, tables);
    assert(pos[i1] == c1);
    assert(pos[i2] == c2);
    assert(p1 != p2) by {
        if p1 == p2 {
            assert(pos[i1] == c2);
        }
    }
    assert(c1 != c2);
    assert(i1 != i2);
    assert forall|x: int| bit(m2[c1], x) <==> ((bit(m[c1], x) && x != p1) || x == p2) by {}
    assert forall|x: int| bit(m2[c2], x) <==> ((bit(m[c2], x) && x != p2) || x == p1) by {}
    assert forall|p: int, r: int| 0 <= p < players && 0 <= r < tables implies {
        let c = #[trigger] pos2[p * tables + r] as int;
        &&& r * tables <= c < r * tables + tables
        &&& bit(m2[c], p)
    } by {
        lemma_index_bound(p, r, players, tables);
        let k = p * tables + r;
        if k == i1 {
            lemma_index_unique(p, r, p1, round, tables);
            assert(pos2[k] == c2);
            assert(bit(m2[c2], p1));
        } else if k == i2 {
            lemma_index_unique(p, r, p2, round, tables);
            assert(pos2[k] == c1);
            assert(bit(m2[c1], p2));
        } else {
            assert(pos2[k] == pos[k]);
            let c = pos[k] as int;
            assert(bit(m[c], p));
            if c == c1 {
                assert(bit(game_at(m, tables, round, table1), p));
                assert(pos[p * tables + round] == c1);
                if r != round {
                    lemma_div_mod_range(r, round, c, tables);
                }
                assert(p != p1);
                assert(bit(m2[c1], p));
            } else if c == c2 {
                assert(bit(game_at(m, tables, round, table2), p));
                assert(pos[p * tables + round] == c2);
                if r != round {
                    lemma_div_mod_range(r, round, c, tables);
                }
                assert(p != p2);
                assert(bit(m2[c2], p));
            } else {
                lemma_index_bound(r, c - r * tables, tables, tables);
                assert(m2[c] == m[c]);
            }
        }
    }
    assert forall|r: int, t: int, x: int|
        0 <= r < tables && 0 <= t < tables && #[trigger] bit(game_at(m2, tables, r, t), x) implies x < players
            && pos2[x * tables + r] == r * tables + t by {
        lemma_index_bound(r, t, tables, tables);
        let c = r * tables + t;
        if c == c1 {
            lemma_index_unique(r, t, round, table1, tables);
            if x == p2 {
                assert(pos2[i2] == c1);
            } else {
                assert(bit(m2[c1], x));
                assert(x != p1);
                assert(bit(game_at(m, tables, r, t), x));
                lemma_index_bound(x, r, players, tables);
                if x * tables + r == i1 {
                    lemma_index_unique(x, r, p1, round, tables);
                }
                if x * tables + r == i2 {
                    lemma_index_unique(x, r, p2, round, tables);
                }
            }
        } else if c == c2 {
            lemma_index_unique(r, t, round, table2, tables);
            if x == p1 {
                assert(pos2[i1] == c2);
            } else {
                assert(bit(m2[c2], x));
                assert(x != p2);
                assert(bit(game_at(m, tables, r, t), x));
                lemma_index_bound(x, r, players, tables);
                if x * tables + r == i1 {
                    lemma_index_unique(x, r, p1, round, tables);
                }
                if x * tables + r == i2 {
                    lemma_index_unique(x, r, p2, round, tables);
                }
            }
        } else {
            assert(game_at(m2, tables, r, t) == game_at(m, tables, r, t));
            assert(x < players);
            lemma_index_bound(x, r, players, tables);
            let k = x * tables + r;
            if k == i1 {
                lemma_index_unique(x, r, p1, round, tables);
                assert(pos[i1] == c1);
                assert(pos[x * tables + r] == c);
                assert(false);
            } else if k == i2 {
                lemma_index_unique(x, r, p2, round, tables);
                assert(false);
            }
        }
    }
}

/// A position `c` of round `r` is no game of another round `r2`.
proof fn lemma_div_mod_range(r: int, r2: int, c: int, tables: int)
    requires
        r != r2,
        r * tables <= c < r * tables + tables,
        tables >= 1,
    ensures
        !(r2 * tables <= c < r2 * tables + tables),
{
    if r < r2 {
        assert(r * tables + tables <= r2 * tables) by (nonlinear_arith) requires r < r2, tables >= 1;
    } else {
        assert(r2 * tables + tables <= r * tables) by (nonlinear_arith) requires r2 < r, tables >= 1;
    }
}

/// Whether the result `(s1, g1)` ranks below `(s2, g2)`: a lower score, or
/// the same score with fewer tables played at.
pub open spec fn ranks_below(s1: int, g1: int, s2: int, g2: int) -> bool {
    s1 < s2 || (s1 == s2 && g1 < g2)
}

/// Whether the trade of `q1` with `q2` is tried before that of `p1` with `p2`:
/// by the first player, then by the second.
pub open spec fn trade_before(q1: int, q2: int, p1: int, p2: int) -> bool {
    q1 < p1 || (q1 == p1 && q2 < p2)
}

impl Schedule {
    /// Sets the game `c` to `w`.
    fn set_game(&mut self, c: usize, w: u64)
        requires
            old(self).wf(),
            c < old(self).spec_matches().len(),
        ensures
            final(self).wf(),
            final(self).spec_matches() == old(self).spec_matches().update(c as int, w),
            final(self).spec_positions() == old(self).spec_positions(),
            final(self).spec_opponent_cache() == old(self).spec_opponent_cache(),
            final(self).spec_games_cache() == old(self).spec_games_cache(),
            final(self).spec_opponents_cache() == old(self).spec_opponents_cache(),
            final(self).spec_players() == old(self).spec_players(),
            final(self).spec_tables() == old(self).spec_tables(),
    {
        self.matches.set(c, w);
    }

    /// Trades the positions of players `p1` and `p2` in `round`.
    fn swap_places(&mut self, round: usize, p1: usize, p2: usize)
        requires
            old(self).wf(),
            round < old(self).spec_tables(),
            p1 < old(self).spec_players(),
            p2 < old(self).spec_players(),
        ensures
            final(self).wf(),
            final(self).spec_positions() == swap_positions(old(self).spec_positions(), old(self).spec_tables(), round as int, p1 as int, p2 as int),
            final(self).spec_matches() == old(self).spec_matches(),
            final(self).spec_opponent_cache() == old(self).spec_opponent_cache(),
            final(self).spec_games_cache() == old(self).spec_games_cache(),
            final(self).spec_opponents_cache() == old(self).spec_opponents_cache(),
            final(self).spec_players() == old(self).spec_players(),
            final(self).spec_tables() == old(self).spec_tables(),
    {
        let t = self.tables;
        proof {
            lemma_index_bound(p1 as int, round as int, self.spec_players(), t as int);
            lemma_index_bound(p2 as int, round as int, self.spec_players(), t as int);
        }
        let i1 = p1 * t + round;
        let i2 = p2 * t + round;
        let a = self.player_positions[i1];
        let b = self.player_positions[i2];
        self.player_positions.set(i1, b);
        self.player_positions.set(i2, a);
    }

    /// Tries every trade of a player of `table1` with a player of `table2` in
    /// `round`, and returns the best score found and its total of tables played
    /// at, `old_score` and the current total when no trade is better; trades
    /// compare by score, then by tables played at, the first of equals kept.
    /// With `apply`, the best trade is made in full (games, positions and kept
    /// totals), and the schedule is left as it was when no trade is better;
    /// without `apply`, the schedule is left as it was. Each trade is scored
    /// from a full recount of the schedule.
    #[verifier::rlimit(100)]
    #[verifier::spinoff_prover]
    pub fn improve_table(&mut self, old_score: u32, round: usize, table1: usize, table2: usize, apply: bool) -> (r: (
        u32,
        u32,
    ))
        requires
            old(self).wf(),
            old(self).caches_ok(),
            old(self).is_seated(),
            old_score == old(self).cached_score(),
            round < old(self).spec_tables(),
            table1 < old(self).spec_tables(),
            table2 < old(self).spec_tables(),
            table1 != table2,
        ensures
            final(self).wf(),
            final(self).spec_players() == old(self).spec_players(),
            final(self).spec_tables() == old(self).spec_tables(),
            r.0 >= old_score,
            (r.0 == old_score && r.1 == old(self).spec_games_cache() && (apply ==> {
                &&& final(self).spec_matches() == old(self).spec_matches()
                &&& final(self).spec_positions() == old(self).spec_positions()
                &&& final(self).spec_opponent_cache() == old(self).spec_opponent_cache()
                &&& final(self).spec_games_cache() == old(self).spec_games_cache()
                &&& final(self).spec_opponents_cache() == old(self).spec_opponents_cache()
            })) || exists|p1: int, p2: int|
                #![trigger old(self).swap_score(round as int, table1 as int, table2 as int, p1, p2)]
                {
                    &&& old(self).is_swap(round as int, table1 as int, table2 as int, p1, p2)
                    &&& r.0 == old(self).swap_score(round as int, table1 as int, table2 as int, p1, p2)
                    &&& r.1 == old(self).swap_games(round as int, table1 as int, table2 as int, p1, p2)
                    &&& ranks_below(old_score as int, old(self).spec_games_cache() as int, r.0 as int, r.1 as int)
                    &&& forall|q1: int, q2: int|
                        old(self).is_swap(round as int, table1 as int, table2 as int, q1, q2) && trade_before(q1, q2, p1, p2)
                            ==> ranks_below(
                            #[trigger] old(self).swap_score(round as int, table1 as int, table2 as int, q1, q2),
                            old(self).swap_games(round as int, table1 as int, table2 as int, q1, q2),
                            r.0 as int,
                            r.1 as int,
                        )
                    &&& apply ==> {
                        &&& final(self).caches_ok()
                        &&& final(self).is_seated()
                        &&& final(self).spec_matches() == swap_matches(
                            old(self).spec_matches(),
                            old(self).spec_tables(),
                            round as int,
                            table1 as int,
                            table2 as int,
                            p1,
                            p2,
                        )
                        &&& final(self).spec_positions() == swap_positions(
                            old(self).spec_positions(),
                            old(self).spec_tables(),
                            round as int,
                            p1,
                            p2,
                        )
                    }
                },
            forall|p1: int, p2: int|
                old(self).is_swap(round as int, table1 as int, table2 as int, p1, p2) ==> {
                    let sc = old(self).swap_score(round as int, table1 as int, table2 as int, p1, p2);
                    sc < r.0 || (sc == r.0 && old(self).swap_games(round as int, table1 as int, table2 as int, p1, p2)
                        <= r.1)
                },
            !apply ==> {
                &&& final(self).spec_matches() == old(self).spec_matches()
                &&& final(self).spec_positions() == old(self).spec_positions()
                &&& final(self).spec_opponent_cache() == old(self).spec_opponent_cache()
                &&& final(self).spec_games_cache() == old(self).spec_games_cache()
                &&& final(self).spec_opponents_cache() == old(self).spec_opponents_cache()
            },
    {
        let ghost s0 = *self;
        let ghost m0 = self.matches@;
        let ghost pos0 = self.player_positions@;
        let ghost tt = self.spec_tables();
        let ghost pp = self.spec_players();
        let t = self.tables;
        proof {
            lemma_index_bound(round as int, table1 as int, tt, tt);
            lemma_index_bound(round as int, table2 as int, tt, tt);
            lemma_ideals(pp, tt);
            assert(tt * tt <= 65536) by (nonlinear_arith) requires 1 <= tt <= 256;
        }
        let c1 = round * t + table1;
        let c2 = round * t + table2;
        let mut score = old_score;
        let old_unique_games_played = self.unique_games_played_cache;
        let mut unique_games_played = old_unique_games_played;
        let start_t1 = self.get(round, table1);
        let start_t2 = self.get(round, table2);
        let mut best_t1 = start_t1;
        let mut best_t2 = start_t2;
        let mut best_player1: usize = 0;
        let mut best_player2: usize = 0;
        let t1_players = self.get_game(round, table1);
        let t2_players = self.get_game(round, table2);
        let mut new_player_opponent_cache = self.player_opponent_cache.clone();
        proof {
            assert(new_player_opponent_cache@ =~= s0.spec_opponent_cache());
        }
        let mut replaced = false;
        let mut i1: usize = 0;
        while i1 < t1_players.len()
            invariant
                self.wf(),
                s0.wf(),
                s0.caches_ok(),
                s0.is_seated(),
                m0 == s0.spec_matches(),
                pos0 == s0.spec_positions(),
                tt == s0.spec_tables(),
                pp == s0.spec_players(),
                t == tt,
                self.spec_players() == pp,
                self.spec_tables() == tt,
                round < tt,
                table1 < tt,
                table2 < tt,
                table1 != table2,
                c1 == round * tt + table1,
                c2 == round * tt + table2,
                c1 < tt * tt,
                c2 < tt * tt,
                start_t1 == m0[c1 as int],
                start_t2 == m0[c2 as int],
                old_score == s0.cached_score(),
                old_unique_games_played == s0.spec_games_cache(),
                self.spec_positions() == pos0,
                self.spec_matches().len() == m0.len(),
                forall|c: int| 0 <= c < m0.len() && c != c1 && c != c2 ==> #[trigger] self.spec_matches()[c] == m0[c],
                forall|k: int| 0 <= k < t1_players@.len() ==> t1_players@[k] < pp && bit(m0[c1 as int], #[trigger] t1_players@[k] as int),
                forall|k: int| 0 <= k < t2_players@.len() ==> t2_players@[k] < pp && bit(m0[c2 as int], #[trigger] t2_players@[k] as int),
                i1 <= t1_players@.len(),
                forall|i: int, j: int| 0 <= i < j < t1_players@.len() ==> t1_players@[i] < t1_players@[j],
                forall|i: int, j: int| 0 <= i < j < t2_players@.len() ==> t2_players@[i] < t2_players@[j],
                forall|p: int| 0 <= p < pp && bit(game_at(m0, tt, round as int, table1 as int), p) ==> t1_players@.contains(p as usize),
                forall|p: int| 0 <= p < pp && bit(game_at(m0, tt, round as int, table2 as int), p) ==> t2_players@.contains(p as usize),
                score >= old_score,
                !replaced ==> score == old_score && unique_games_played == old_unique_games_played && best_t1
                    == start_t1 && best_t2 == start_t2 && new_player_opponent_cache@ == s0.spec_opponent_cache(),
                replaced ==> ranks_below(old_score as int, old_unique_games_played as int, score as int, unique_games_played as int),
                replaced ==> forall|q1: int, q2: int|
                    s0.is_swap(round as int, table1 as int, table2 as int, q1, q2) && trade_before(q1, q2, best_player1 as int, best_player2 as int)
                        ==> ranks_below(
                        #[trigger] s0.swap_score(round as int, table1 as int, table2 as int, q1, q2),
                        s0.swap_games(round as int, table1 as int, table2 as int, q1, q2),
                        score as int,
                        unique_games_played as int,
                    ),
                replaced ==> {
                    &&& s0.is_swap(round as int, table1 as int, table2 as int, best_player1 as int, best_player2 as int)
                    &&& score == s0.swap_score(round as int, table1 as int, table2 as int, best_player1 as int, best_player2 as int)
                    &&& unique_games_played == s0.swap_games(round as int, table1 as int, table2 as int, best_player1 as int, best_player2 as int)
                    &&& best_t1 == (start_t1 & !(1u64 << (best_player1 as u64))) | (1u64 << (best_player2 as u64))
                    &&& best_t2 == (start_t2 & !(1u64 << (best_player2 as u64))) | (1u64 << (best_player1 as u64))
                    &&& apply ==> forall|p: int| 0 <= p < pp ==> #[trigger] new_player_opponent_cache@[p] == opponent_count(
                        swap_matches(m0, tt, round as int, table1 as int, table2 as int, best_player1 as int, best_player2 as int),
                        swap_positions(pos0, tt, round as int, best_player1 as int, best_player2 as int),
                        tt,
                        p,
                    )
                    &&& apply ==> new_player_opponent_cache@.len() == pp
                },
                !apply ==> new_player_opponent_cache@ == s0.spec_opponent_cache(),
                forall|k1: int, k2: int|
                    0 <= k1 < i1 && 0 <= k2 < t2_players@.len() ==> {
                        let sc = s0.swap_score(round as int, table1 as int, table2 as int, #[trigger] t1_players@[k1] as int, #[trigger] t2_players@[k2] as int);
                        sc < score || (sc == score && s0.swap_games(round as int, table1 as int, table2 as int, t1_players@[k1] as int, t2_players@[k2] as int) <= unique_games_played)
                    },
            decreases t1_players@.len() - i1,
        {
            let player1 = t1_players[i1];
            let mut i2: usize = 0;
            while i2 < t2_players.len()
                invariant
                    self.wf(),
                    s0.wf(),
                    s0.caches_ok(),
                    s0.is_seated(),
                    m0 == s0.spec_matches(),
                    pos0 == s0.spec_positions(),
                    tt == s0.spec_tables(),
                    pp == s0.spec_players(),
                    t == tt,
                    self.spec_players() == pp,
                    self.spec_tables() == tt,
                    round < tt,
                    table1 < tt,
                    table2 < tt,
                    table1 != table2,
                    c1 == round * tt + table1,
                    c2 == round * tt + table2,
                    c1 < tt * tt,
                    c2 < tt * tt,
                    start_t1 == m0[c1 as int],
                    start_t2 == m0[c2 as int],
                    old_score == s0.cached_score(),
                    old_unique_games_played == s0.spec_games_cache(),
                    self.spec_positions() == pos0,
                    self.spec_matches().len() == m0.len(),
                    forall|c: int| 0 <= c < m0.len() && c != c1 && c != c2 ==> #[trigger] self.spec_matches()[c] == m0[c],
                    forall|k: int| 0 <= k < t1_players@.len() ==> t1_players@[k] < pp && bit(m0[c1 as int], #[trigger] t1_players@[k] as int),
                    forall|k: int| 0 <= k < t2_players@.len() ==> t2_players@[k] < pp && bit(m0[c2 as int], #[trigger] t2_players@[k] as int),
                    i1 < t1_players@.len(),
                    player1 == t1_players@[i1 as int],
                    i2 <= t2_players@.len(),
                    forall|i: int, j: int| 0 <= i < j < t1_players@.len() ==> t1_players@[i] < t1_players@[j],
                    forall|i: int, j: int| 0 <= i < j < t2_players@.len() ==> t2_players@[i] < t2_players@[j],
                    forall|p: int| 0 <= p < pp && bit(game_at(m0, tt, round as int, table1 as int), p) ==> t1_players@.contains(p as usize),
                    forall|p: int| 0 <= p < pp && bit(game_at(m0, tt, round as int, table2 as int), p) ==> t2_players@.contains(p as usize),
                    score >= old_score,
                    !replaced ==> score == old_score && unique_games_played == old_unique_games_played && best_t1
                        == start_t1 && best_t2 == start_t2 && new_player_opponent_cache@ == s0.spec_opponent_cache(),
                    replaced ==> ranks_below(old_score as int, old_unique_games_played as int, score as int, unique_games_played as int),
                    replaced ==> forall|q1: int, q2: int|
                        s0.is_swap(round as int, table1 as int, table2 as int, q1, q2) && trade_before(q1, q2, best_player1 as int, best_player2 as int)
                            ==> ranks_below(
                            #[trigger] s0.swap_score(round as int, table1 as int, table2 as int, q1, q2),
                            s0.swap_games(round as int, table1 as int, table2 as int, q1, q2),
                            score as int,
                            unique_games_played as int,
                        ),
                    replaced ==> {
                        &&& s0.is_swap(round as int, table1 as int, table2 as int, best_player1 as int, best_player2 as int)
                        &&& score == s0.swap_score(round as int, table1 as int, table2 as int, best_player1 as int, best_player2 as int)
                        &&& unique_games_played == s0.swap_games(round as int, table1 as int, table2 as int, best_player1 as int, best_player2 as int)
                        &&& best_t1 == (start_t1 & !(1u64 << (best_player1 as u64))) | (1u64 << (best_player2 as u64))
                        &&& best_t2 == (start_t2 & !(1u64 << (best_player2 as u64))) | (1u64 << (best_player1 as u64))
                        &&& apply ==> forall|p: int| 0 <= p < pp ==> #[trigger] new_player_opponent_cache@[p] == opponent_count(
                            swap_matches(m0, tt, round as int, table1 as int, table2 as int, best_player1 as int, best_player2 as int),
                            swap_positions(pos0, tt, round as int, best_player1 as int, best_player2 as int),
                            tt,
                            p,
                        )
                        &&& apply ==> new_player_opponent_cache@.len() == pp
                    },
                    !apply ==> new_player_opponent_cache@ == s0.spec_opponent_cache(),
                    forall|k1: int, k2: int|
                        (0 <= k1 < i1 && 0 <= k2 < t2_players@.len()) || (k1 == i1 && 0 <= k2 < i2) ==> {
                            let sc = s0.swap_score(round as int, table1 as int, table2 as int, #[trigger] t1_players@[k1] as int, #[trigger] t2_players@[k2] as int);
                            sc < score || (sc == score && s0.swap_games(round as int, table1 as int, table2 as int, t1_players@[k1] as int, t2_players@[k2] as int) <= unique_games_played)
                        },
                decreases t2_players@.len() - i2,
            {
                let player2 = t2_players[i2];
                let player_number1: u64 = 1u64 << (player1 as u64);
                let player_number2: u64 = 1u64 << (player2 as u64);
                self.set_game(c1, (start_t1 & !player_number1) | player_number2);
                self.set_game(c2, (start_t2 & !player_number2) | player_number1);
                self.swap_places(round, player1, player2);
                proof {
                    assert(self.spec_matches() =~= swap_matches(m0, tt, round as int, table1 as int, table2 as int, player1 as int, player2 as int));
                    assert(s0.is_swap(round as int, table1 as int, table2 as int, player1 as int, player2 as int));
                    lemma_swap_seated(m0, pos0, tt, pp, round as int, table1 as int, table2 as int, player1 as int, player2 as int);
                    lemma_seated_sum(self.spec_matches(), self.spec_positions(), tt, pp);
                }
                self.find_unique_opponents();
                let new_unique_games_played = self.find_unique_games_played();
                let new_score = self.get_score();
                proof {
                    assert(new_score == s0.swap_score(round as int, table1 as int, table2 as int, player1 as int, player2 as int));
                    assert(new_unique_games_played == s0.swap_games(round as int, table1 as int, table2 as int, player1 as int, player2 as int));
                }
                let ghost trial_cache = self.player_opponent_cache@;
                self.swap_places(round, player1, player2);
                proof {
                    assert(bit(game_at(m0, tt, round as int, table1 as int), player1 as int));
                    assert(bit(game_at(m0, tt, round as int, table2 as int), player2 as int));
                    assert(pos0[player1 * tt + round] == c1);
                    assert(pos0[player2 * tt + round] == c2);
                    lemma_index_bound(player1 as int, round as int, pp, tt);
                    lemma_index_bound(player2 as int, round as int, pp, tt);
                    assert(player1 != player2);
                    if player1 * tt + round == player2 * tt + round {
                        lemma_index_unique(player1 as int, round as int, player2 as int, round as int, tt);
                    }
                    assert(self.spec_positions() =~= pos0);
                }
                if new_score > score || (new_score == score && new_unique_games_played > unique_games_played) {
                    proof {
                        assert forall|q1: int, q2: int|
                            s0.is_swap(round as int, table1 as int, table2 as int, q1, q2) && trade_before(
                                q1,
                                q2,
                                player1 as int,
                                player2 as int,
                            ) implies ranks_below(
                            #[trigger] s0.swap_score(round as int, table1 as int, table2 as int, q1, q2),
                            s0.swap_games(round as int, table1 as int, table2 as int, q1, q2),
                            new_score as int,
                            new_unique_games_played as int,
                        ) by {
                            assert(t1_players@.contains(q1 as usize));
                            assert(t2_players@.contains(q2 as usize));
                            let k1 = choose|k: int| 0 <= k < t1_players@.len() && t1_players@[k] == q1 as usize;
                            let k2 = choose|k: int| 0 <= k < t2_players@.len() && t2_players@[k] == q2 as usize;
                            if k1 > i1 {
                                assert(t1_players@[i1 as int] < t1_players@[k1]);
                            }
                            if k1 == i1 && k2 > i2 {
                                assert(t2_players@[i2 as int] < t2_players@[k2]);
                            }
                            assert((0 <= k1 < i1) || (k1 == i1 && 0 <= k2 < i2));
                            let sc = s0.swap_score(
                                round as int,
                                table1 as int,
                                table2 as int,
                                t1_players@[k1] as int,
                                t2_players@[k2] as int,
                            );
                            assert(sc < score || (sc == score && s0.swap_games(
                                round as int,
                                table1 as int,
                                table2 as int,
                                t1_players@[k1] as int,
                                t2_players@[k2] as int,
                            ) <= unique_games_played));
                        }
                    }
                    best_t1 = (start_t1 & !player_number1) | player_number2;
                    best_t2 = (start_t2 & !player_number2) | player_number1;
                    best_player1 = player1;
                    best_player2 = player2;
                    score = new_score;
                    unique_games_played = new_unique_games_played;
                    if apply {
                        new_player_opponent_cache = self.player_opponent_cache.clone();
                        proof {
                            assert(new_player_opponent_cache@ =~= trial_cache);
                        }
                    }
                    replaced = true;
                }
                i2 = i2 + 1;
            }
            i1 = i1 + 1;
        }
        proof {
            assert forall|k: int| 0 <= k < pp implies (#[trigger] new_player_opponent_cache@[k]) <= 64 by {
                if apply && replaced {
                    crate::bits::lemma_pop_le(player_union(
                        swap_matches(m0, tt, round as int, table1 as int, table2 as int, best_player1 as int, best_player2 as int),
                        swap_positions(pos0, tt, round as int, best_player1 as int, best_player2 as int),
                        tt, k, tt), 64);
                } else {
                    assert(new_player_opponent_cache@[k] == s0.spec_opponent_cache()[k]);
                }
            }
        }
        self.player_opponent_cache = new_player_opponent_cache;
        if apply {
            self.set_game(c1, best_t1);
            self.set_game(c2, best_t2);
            if replaced {
                self.swap_places(round, best_player1, best_player2);
            }
            self.unique_games_played_cache = unique_games_played;
        } else {
            self.set_game(c1, start_t1);
            self.set_game(c2, start_t2);
            self.unique_games_played_cache = old_unique_games_played;
        }
        proof {
            lemma_counts_sum(s0.spec_opponent_cache(), m0, pos0, tt, pp);
            lemma_seated_sum(m0, pos0, tt, pp);
            if apply && replaced {
                let sm = swap_matches(m0, tt, round as int, table1 as int, table2 as int, best_player1 as int, best_player2 as int);
                let sp = swap_positions(pos0, tt, round as int, best_player1 as int, best_player2 as int);
                lemma_counts_sum(self.spec_opponent_cache(), sm, sp, tt, pp);
                lemma_swap_seated(m0, pos0, tt, pp, round as int, table1 as int, table2 as int, best_player1 as int, best_player2 as int);
                lemma_seated_sum(sm, sp, tt, pp);
            }
            if !(apply && replaced) {
                assert(self.spec_opponent_cache() == s0.spec_opponent_cache());
            }
            if replaced {
                lemma_games_sum_bound(
                    swap_matches(m0, tt, round as int, table1 as int, table2 as int, best_player1 as int, best_player2 as int),
                    tt,
                    tt,
                );
            }
        }
        self.sum_unique_opponent();
        proof {
            if !apply {
                assert(self.spec_matches() =~= m0);
            }
            if apply && replaced {
                assert(self.spec_matches() =~= swap_matches(m0, tt, round as int, table1 as int, table2 as int, best_player1 as int, best_player2 as int));
                lemma_swap_seated(m0, pos0, tt, pp, round as int, table1 as int, table2 as int, best_player1 as int, best_player2 as int);
            }
            assert forall|p1: int, p2: int| s0.is_swap(round as int, table1 as int, table2 as int, p1, p2) implies {
                let sc = s0.swap_score(round as int, table1 as int, table2 as int, p1, p2);
                sc < score || (sc == score && s0.swap_games(round as int, table1 as int, table2 as int, p1, p2) <= unique_games_played)
            } by {
                assert(t1_players@.contains(p1 as usize));
                assert(t2_players@.contains(p2 as usize));
                let k1 = choose|k: int| 0 <= k < t1_players@.len() && t1_players@[k] == p1 as usize;
                let k2 = choose|k: int| 0 <= k < t2_players@.len() && t2_players@[k] == p2 as usize;
                let sc = s0.swap_score(round as int, table1 as int, table2 as int, t1_players@[k1] as int, t2_players@[k2] as int);
                assert(sc < score || (sc == score && s0.swap_games(round as int, table1 as int, table2 as int, t1_players@[k1] as int, t2_players@[k2] as int) <= unique_games_played));
            }
        }
        (score, unique_games_played)
    }
}

impl Schedule {
    /// A schedule with the same games, positions and kept totals.
    pub fn copy(&self) -> (r: Self)
        ensures
            r.spec_players() == self.spec_players(),
            r.spec_tables() == self.spec_tables(),
            r.spec_matches() == self.spec_matches(),
            r.spec_positions() == self.spec_positions(),
            r.spec_opponent_cache() == self.spec_opponent_cache(),
            r.spec_games_cache() == self.spec_games_cache(),
            r.spec_opponents_cache() == self.spec_opponents_cache(),
            r.spec_ideal_games() == self.spec_ideal_games(),
            r.spec_ideal_opponents() == self.spec_ideal_opponents(),
    {
        let matches = self.matches.clone();
        let player_positions = self.player_positions.clone();
        let player_opponent_cache = self.player_opponent_cache.clone();
        proof {
            assert(matches@ =~= self.matches@);
            assert(player_positions@ =~= self.player_positions@);
            assert(player_opponent_cache@ =~= self.player_opponent_cache@);
        }
        Schedule {
            player_count: self.player_count,
            tables: self.tables,
            matches,
            player_positions,
            player_opponent_cache,
            unique_games_played_cache: self.unique_games_played_cache,
            unique_opponent_sum_cache: self.unique_opponent_sum_cache,
            ideal_unique_games: self.ideal_unique_games,
            ideal_unique_opponents: self.ideal_unique_opponents,
        }
    }
}

/// A schedule that is ready to be improved: sized, up to date and seated.
pub open spec fn ready(s: &Schedule) -> bool {
    &&& s.wf()
    &&& s.caches_ok()
    &&& s.is_seated()
}

/// Improves schedules by hill climbing: it tries every trade of two players in
/// a round, one trade a step, makes the best trade once all were tried, and
/// starts from a random schedule when no trade helps. It keeps the best
/// schedule seen.
pub struct Generator {
    player_count: usize,
    tables: usize,
    /// The best schedule seen.
    pub best: Schedule,
    /// The score of the best schedule seen.
    pub best_score: u32,
    current: Schedule,
    current_score: u32,
    next: (usize, usize, usize),
    next_score: u32,
    next_unique_games: u32,
    rng: rand_xorshift::XorShiftRng,
    round: usize,
    table1: usize,
    table2: usize,
}

impl Generator {
    pub closed spec fn spec_players(&self) -> int {
        self.player_count as int
    }

    pub closed spec fn spec_tables(&self) -> int {
        self.tables as int
    }

    pub closed spec fn spec_best_score(&self) -> int {
        self.best_score as int
    }

    /// The best schedule seen.
    pub closed spec fn spec_best(&self) -> Schedule {
        self.best
    }

    /// The best score is the score of the best schedule seen, whose kept
    /// totals match its games.
    pub proof fn lemma_best_score(&self)
        requires
            self.wf(),
        ensures
            self.spec_best().caches_ok(),
            self.spec_best_score() == self.spec_best().cached_score(),
    {
    }

    /// The schedule being improved.
    pub closed spec fn spec_current(&self) -> Schedule {
        self.current
    }

    /// The best trade found in this sweep so far: its round and two tables.
    pub closed spec fn spec_next(&self) -> (int, int, int) {
        (self.next.0 as int, self.next.1 as int, self.next.2 as int)
    }

    /// The score of the best trade found in this sweep so far.
    pub closed spec fn spec_next_score(&self) -> int {
        self.next_score as int
    }

    /// The tables played at after the best trade found in this sweep so far.
    pub closed spec fn spec_next_games(&self) -> int {
        self.next_unique_games as int
    }

    /// The score of the schedule being improved.
    pub closed spec fn spec_current_score(&self) -> int {
        self.current_score as int
    }

    /// The trade to try next: its round and its two tables.
    pub closed spec fn cursor(&self) -> (int, int, int) {
        (self.round as int, self.table1 as int, self.table2 as int)
    }

    /// The generator's invariant, and the best score is at least the score of
    /// the schedule being improved.
    pub closed spec fn wf(&self) -> bool {
        &&& self.wf_core()
        &&& self.best_score >= self.current_score
    }

    /// The schedule being improved is ready and scored, the trade being tried
    /// and the best trade found so far name rounds and two different tables,
    /// and a best trade better than the schedule exists and beats every other
    /// trade of its tables.
    closed spec fn wf_core(&self) -> bool {
        let t = self.tables as int;
        let (nr, n1, n2) = self.next;
        &&& sizes_ok(self.player_count as int, t)
        &&& t >= 2
        &&& ready(&self.current)
        &&& self.best.caches_ok()
        &&& self.best_score == self.best.cached_score()
        &&& self.current.spec_players() == self.player_count
        &&& self.current.spec_tables() == self.tables
        &&& self.current_score == self.current.cached_score()
        &&& self.round < t
        &&& self.table1 <= self.table2 < t
        &&& nr < t && n1 < t && n2 < t && n1 != n2
        &&& self.next_score > self.current_score ==> {
            &&& exists|p1: int, p2: int|
                self.current.is_swap(nr as int, n1 as int, n2 as int, p1, p2) && self.current.swap_score(
                    nr as int,
                    n1 as int,
                    n2 as int,
                    p1,
                    p2,
                ) == self.next_score
            &&& forall|p1: int, p2: int|
                self.current.is_swap(nr as int, n1 as int, n2 as int, p1, p2) ==> self.current.swap_score(
                    nr as int,
                    n1 as int,
                    n2 as int,
                    p1,
                    p2,
                ) <= self.next_score
        }
    }

    /// A generator for `player_count` players at `tables` tables that starts
    /// from the schedule that rotates the players one table a round.
    pub fn new(rng: rand_xorshift::XorShiftRng, player_count: usize, tables: usize) -> (r: Self)
        requires
            sizes_ok(player_count as int, tables as int),
            tables >= 2,
        ensures
            r.wf(),
            r.spec_players() == player_count,
            r.spec_tables() == tables,
    {
        let mut best = Schedule::new(player_count, tables);
        best.normal_fill();
        proof {
            lemma_seated_sum(best.spec_matches(), best.spec_positions(), tables as int, player_count as int);
        }
        let score = best.generate_score();
        proof {
            lemma_cached_score(&best);
        }
        let current = best.copy();
        Self {
            player_count,
            tables,
            best,
            best_score: score,
            current,
            current_score: score,
            next: (0, 0, 1),
            next_score: score,
            next_unique_games: 0,
            rng,
            round: 0,
            table1: 0,
            table2: 0,
        }
    }

    /// The number of players.
    pub fn get_player_count(&self) -> (r: usize)
        ensures
            r == self.spec_players(),
    {
        self.player_count
    }

    /// The number of tables.
    pub fn get_tables(&self) -> (r: usize)
        ensures
            r == self.spec_tables(),
    {
        self.tables
    }

    /// Keeps the current schedule as the best one when it scores higher, or as
    /// high with more tables played at.
    #[verifier::spinoff_prover]
    fn keep_if_best(&mut self)
        requires
            old(self).wf_core(),
        ensures
            final(self).wf(),
            final(self).spec_players() == old(self).spec_players(),
            final(self).spec_tables() == old(self).spec_tables(),
            final(self).spec_best_score() >= old(self).spec_best_score(),
            final(self).current_score == old(self).current_score,
            final(self).current == old(self).current,
            final(self).round == old(self).round,
            final(self).table1 == old(self).table1,
            final(self).table2 == old(self).table2,
            final(self).next == old(self).next,
            final(self).next_score == old(self).next_score,
            final(self).next_unique_games == old(self).next_unique_games,
            ranks_below(
                old(self).best_score as int,
                old(self).best.spec_games_cache(),
                old(self).current_score as int,
                old(self).current.spec_games_cache(),
            ) ==> final(self).best_score == old(self).current_score && same_schedule(final(self).best, old(self).current),
            !ranks_below(
                old(self).best_score as int,
                old(self).best.spec_games_cache(),
                old(self).current_score as int,
                old(self).current.spec_games_cache(),
            ) ==> final(self).best_score == old(self).best_score && final(self).best == old(self).best,
    {
        let ghost a = *old(self);
        if self.current_score > self.best_score || (self.current_score == self.best_score
            && self.current.unique_games_played() > self.best.unique_games_played()) {
            self.best_score = self.current_score;
            self.best = self.current.copy();
        }
        proof {
            let (nr, n1, n2) = self.next;
            assert(self.current == a.current);
            if self.next_score > self.current_score {
                let (p1, p2) = choose|p1: int, p2: int|
                    a.current.is_swap(nr as int, n1 as int, n2 as int, p1, p2) && a.current.swap_score(
                        nr as int,
                        n1 as int,
                        n2 as int,
                        p1,
                        p2,
                    ) == a.next_score;
                assert(self.current.is_swap(nr as int, n1 as int, n2 as int, p1, p2));
            }
        }
    }

    /// Tries the next trade; after the last trade of a sweep, makes the best
    /// trade if it improves the schedule, or else starts over from a random
    /// schedule. The best score never decreases.
    #[verifier::rlimit(50)]
    pub fn process(&mut self)
        requires
            old(self).wf(),
        ensures
            final(self).wf(),
            final(self).spec_players() == old(self).spec_players(),
            final(self).spec_tables() == old(self).spec_tables(),
            final(self).spec_best_score() >= old(self).spec_best_score(),
            final(self).spec_best_score() >= final(self).spec_current_score(),
            final(self).cursor() == next_trade(old(self).cursor(), old(self).spec_tables()),
            !sweep_ends(old(self).cursor(), old(self).spec_tables()) ==> {
                &&& same_schedule(final(self).spec_current(), old(self).spec_current())
                &&& final(self).spec_current_score() == old(self).spec_current_score()
                &&& final(self).spec_best() == old(self).spec_best()
                &&& final(self).spec_best_score() == old(self).spec_best_score()
            },
            sweep_ends(old(self).cursor(), old(self).spec_tables()) && old(self).spec_next_score()
                > old(self).spec_current_score() ==> final(self).spec_current_score() == old(self).spec_next_score()
                && exists|p1: int, p2: int|
                #![trigger trade_made(old(self).spec_current(), final(self).spec_current(), old(self).spec_next(), p1, p2)]
                trade_made(old(self).spec_current(), final(self).spec_current(), old(self).spec_next(), p1, p2),
            sweep_ends(old(self).cursor(), old(self).spec_tables()) && old(self).spec_next_score()
                <= old(self).spec_current_score() ==> {
                &&& ready(&final(self).spec_current())
                &&& balanced(
                    final(self).spec_current().spec_matches(),
                    final(self).spec_current().spec_tables(),
                    final(self).spec_current().spec_players(),
                )
                &&& final(self).spec_current_score() == final(self).spec_current().cached_score()
            },
            sweep_ends(old(self).cursor(), old(self).spec_tables()) ==> if ranks_below(
                old(self).spec_best_score(),
                old(self).spec_best().spec_games_cache(),
                final(self).spec_current_score(),
                final(self).spec_current().spec_games_cache(),
            ) {
                final(self).spec_best_score() == final(self).spec_current_score() && same_schedule(
                    final(self).spec_best(),
                    final(self).spec_current(),
                )
            } else {
                final(self).spec_best_score() == old(self).spec_best_score() && final(self).spec_best()
                    == old(self).spec_best()
            },
            ({
                let base = if sweep_ends(old(self).cursor(), old(self).spec_tables()) && old(self).spec_next_score()
                    <= old(self).spec_current_score() {
                    final(self).spec_current_score()
                } else {
                    old(self).spec_next_score()
                };
                let c = final(self).cursor();
                let tr = trade_result(final(self).spec_current(), c.0, c.1, c.2);
                if ranks_below(base, old(self).spec_next_games(), tr.0, tr.1) {
                    final(self).spec_next() == c && final(self).spec_next_score() == tr.0
                        && final(self).spec_next_games() == tr.1
                } else {
                    final(self).spec_next() == old(self).spec_next() && final(self).spec_next_score() == base
                        && final(self).spec_next_games() == old(self).spec_next_games()
                }
            }),
    {
        let ghost a0 = *self;
        self.table2 = self.table2 + 1;
        if self.table2 >= self.tables {
            self.table2 = self.table1 + 2;
            self.table1 = self.table1 + 1;
            if self.table2 >= self.tables {
                self.table1 = 0;
                self.table2 = 1;
                self.round = self.round + 1;
                if self.round >= self.tables {
                    self.round = 0;
                    self.table1 = 0;
                    self.table2 = 1;
                    self.end_sweep();
                }
            }
        }
        let ghost a1 = *self;
        self.try_trade();
        proof {
            if sweep_ends(a0.cursor(), a0.spec_tables()) && a0.spec_next_score() > a0.spec_current_score() {
                let (p1, p2) = choose|p1: int, p2: int|
                    #![trigger trade_made(a0.spec_current(), a1.spec_current(), a0.spec_next(), p1, p2)]
                    trade_made(a0.spec_current(), a1.spec_current(), a0.spec_next(), p1, p2);
                assert(trade_made(a0.spec_current(), self.spec_current(), a0.spec_next(), p1, p2));
            }
        }
    }

    /// Ends a sweep: makes the best trade found when it improves the schedule,
    /// or else starts over from a random schedule; keeps the schedule as the
    /// best one when it ranks higher.
    #[verifier::rlimit(50)]
    fn end_sweep(&mut self)
        requires
            old(self).wf(),
        ensures
            final(self).wf(),
            final(self).spec_players() == old(self).spec_players(),
            final(self).spec_tables() == old(self).spec_tables(),
            final(self).cursor() == old(self).cursor(),
            final(self).spec_best_score() >= old(self).spec_best_score(),
            final(self).spec_next() == old(self).spec_next(),
            final(self).spec_next_games() == old(self).spec_next_games(),
            old(self).spec_next_score() > old(self).spec_current_score() ==> final(self).spec_current_score()
                == old(self).spec_next_score(),
            old(self).spec_next_score() > old(self).spec_current_score() ==> final(self).spec_next_score()
                == old(self).spec_next_score(),
            old(self).spec_next_score() > old(self).spec_current_score() ==> exists|p1: int, p2: int|
                #![trigger trade_made(old(self).spec_current(), final(self).spec_current(), old(self).spec_next(), p1, p2)]
                trade_made(old(self).spec_current(), final(self).spec_current(), old(self).spec_next(), p1, p2),
            old(self).spec_next_score() <= old(self).spec_current_score() ==> {
                &&& ready(&final(self).spec_current())
                &&& balanced(
                    final(self).spec_current().spec_matches(),
                    final(self).spec_current().spec_tables(),
                    final(self).spec_current().spec_players(),
                )
                &&& final(self).spec_current_score() == final(self).spec_current().cached_score()
                &&& final(self).spec_next_score() == final(self).spec_current_score()
            },
            if ranks_below(
                old(self).spec_best_score(),
                old(self).spec_best().spec_games_cache(),
                final(self).spec_current_score(),
                final(self).spec_current().spec_games_cache(),
            ) {
                final(self).spec_best_score() == final(self).spec_current_score() && same_schedule(
                    final(self).spec_best(),
                    final(self).spec_current(),
                )
            } else {
                final(self).spec_best_score() == old(self).spec_best_score() && final(self).spec_best()
                    == old(self).spec_best()
            },
    {
        let ghost a0 = *self;
        let ghost mut mid = self.current;
        let ghost mut made: (int, int) = (0, 0);
        if self.next_score > self.current_score {
            let (round, table1, table2) = self.next;
            let ghost before = self.current;
            let applied = self.current.improve_table(self.current_score, round, table1, table2, true);
            proof {
                let (p1, p2) = choose|p1: int, p2: int|
                    before.is_swap(round as int, table1 as int, table2 as int, p1, p2)
                        && before.swap_score(round as int, table1 as int, table2 as int, p1, p2) == self.next_score;
                assert(applied.0 >= self.next_score);
                let rd = round as int;
                let u1 = table1 as int;
                let u2 = table2 as int;
                let (q1, q2) = choose|q1: int, q2: int|
                    #![trigger before.swap_score(rd, u1, u2, q1, q2)]
                    {
                        &&& before.is_swap(rd, u1, u2, q1, q2)
                        &&& applied.0 == before.swap_score(rd, u1, u2, q1, q2)
                        &&& applied.1 == before.swap_games(rd, u1, u2, q1, q2)
                        &&& ranks_below(before.cached_score(), before.spec_games_cache(), applied.0 as int, applied.1 as int)
                        &&& forall|x1: int, x2: int|
                            before.is_swap(rd, u1, u2, x1, x2) && trade_before(x1, x2, q1, q2) ==> ranks_below(
                                #[trigger] before.swap_score(rd, u1, u2, x1, x2),
                                before.swap_games(rd, u1, u2, x1, x2),
                                applied.0 as int,
                                applied.1 as int,
                            )
                        &&& self.current.caches_ok()
                        &&& self.current.is_seated()
                        &&& self.current.spec_matches() == swap_matches(before.spec_matches(), before.spec_tables(), rd, u1, u2, q1, q2)
                        &&& self.current.spec_positions() == swap_positions(before.spec_positions(), before.spec_tables(), rd, q1, q2)
                    };
                assert(applied.0 <= self.next_score);
                lemma_cached_score(&self.current);
                assert(self.current.score() == applied.0);
                made = (q1, q2);
                mid = self.current;
                assert(trade_made(before, mid, (round as int, table1 as int, table2 as int), q1, q2));
            }
            self.current_score = self.next_score;
            self.keep_if_best();
        } else {
            let mut fresh = Schedule::new(self.player_count, self.tables);
            fresh.generate_random(&mut self.rng);
            proof {
                lemma_seated_sum(fresh.spec_matches(), fresh.spec_positions(), fresh.spec_tables(), fresh.spec_players());
            }
            let score = fresh.generate_score();
            proof {
                lemma_cached_score(&fresh);
            }
            self.current = fresh;
            self.current_score = score;
            self.next_score = score;
            self.keep_if_best();
        }

        proof {
            if a0.spec_next_score() > a0.spec_current_score() {
                assert(trade_made(a0.spec_current(), self.spec_current(), a0.spec_next(), made.0, made.1));
            }
        }
    }

    /// Tries the trade at the cursor on the schedule being improved, without
    /// making it, and keeps it as the best trade of the sweep when it ranks
    /// higher.
    #[verifier::rlimit(50)]
    fn try_trade(&mut self)
        requires
            old(self).wf(),
            old(self).cursor().1 < old(self).cursor().2,
        ensures
            final(self).wf(),
            final(self).spec_players() == old(self).spec_players(),
            final(self).spec_tables() == old(self).spec_tables(),
            final(self).cursor() == old(self).cursor(),
            same_schedule(final(self).spec_current(), old(self).spec_current()),
            final(self).spec_current_score() == old(self).spec_current_score(),
            final(self).spec_best() == old(self).spec_best(),
            final(self).spec_best_score() == old(self).spec_best_score(),
            ({
                let c = old(self).cursor();
                let tr = trade_result(final(self).spec_current(), c.0, c.1, c.2);
                if ranks_below(old(self).spec_next_score(), old(self).spec_next_games(), tr.0, tr.1) {
                    final(self).spec_next() == c && final(self).spec_next_score() == tr.0
                        && final(self).spec_next_games() == tr.1
                } else {
                    final(self).spec_next() == old(self).spec_next() && final(self).spec_next_score()
                        == old(self).spec_next_score() && final(self).spec_next_games() == old(self).spec_next_games()
                }
            }),
    {
        let ghost cur0 = self.current;
        let (new_score, new_unique_games_played) = self.current.improve_table(
            self.current_score,
            self.round,
            self.table1,
            self.table2,
            false,
        );
        proof {
            lemma_same_schedule(cur0, self.current);
            let rr = (new_score as int, new_unique_games_played as int);
            let cr = self.round as int;
            let c1 = self.table1 as int;
            let c2 = self.table2 as int;
            if rr != (cur0.cached_score(), cur0.spec_games_cache()) {
                let (p1, p2) = choose|p1: int, p2: int|
                    #![trigger cur0.swap_score(cr, c1, c2, p1, p2)]
                    {
                        &&& cur0.is_swap(cr, c1, c2, p1, p2)
                        &&& rr.0 == cur0.swap_score(cr, c1, c2, p1, p2)
                        &&& rr.1 == cur0.swap_games(cr, c1, c2, p1, p2)
                        &&& ranks_below(cur0.cached_score(), cur0.spec_games_cache(), rr.0, rr.1)
                        &&& forall|q1: int, q2: int|
                            cur0.is_swap(cr, c1, c2, q1, q2) && trade_before(q1, q2, p1, p2) ==> ranks_below(
                                #[trigger] cur0.swap_score(cr, c1, c2, q1, q2),
                                cur0.swap_games(cr, c1, c2, q1, q2),
                                rr.0,
                                rr.1,
                            )
                    };
                assert(self.current.is_swap(cr, c1, c2, p1, p2));
                assert(rr == (self.current.swap_score(cr, c1, c2, p1, p2), self.current.swap_games(cr, c1, c2, p1, p2)));
            }
            assert forall|p1: int, p2: int| self.current.is_swap(cr, c1, c2, p1, p2) implies !ranks_below(
                rr.0,
                rr.1,
                #[trigger] self.current.swap_score(cr, c1, c2, p1, p2),
                self.current.swap_games(cr, c1, c2, p1, p2),
            ) by {
                assert(cur0.is_swap(cr, c1, c2, p1, p2));
            }
            lemma_trade_result(self.current, cr, c1, c2, rr);
        }
        if new_score > self.next_score || (new_score == self.next_score && new_unique_games_played
            > self.next_unique_games) {
            self.next = (self.round, self.table1, self.table2);
            self.next_score = new_score;
            self.next_unique_games = new_unique_games_played;
        }
        proof {
            let (nr, n1, n2) = self.next;
            if self.next_score > self.current_score {
                let (p1, p2) = choose|p1: int, p2: int|
                    cur0.is_swap(nr as int, n1 as int, n2 as int, p1, p2) && cur0.swap_score(nr as int, n1 as int, n2 as int, p1, p2)
                        == self.next_score;
                assert(self.current.is_swap(nr as int, n1 as int, n2 as int, p1, p2));
            }
        }
    }
}

/// The trade after `c` in the sweep over the trades of `tables` tables: the
/// second table moves on; past the last table the first moves on and the
/// second follows it; past the last pair the round moves on, and after the
/// last round the sweep starts over.
pub open spec fn next_trade(c: (int, int, int), tables: int) -> (int, int, int) {
    let (round, t1, t2) = c;
    if t2 + 1 < tables {
        (round, t1, t2 + 1)
    } else if t1 + 2 < tables {
        (round, t1 + 1, t1 + 2)
    } else if round + 1 < tables {
        (round + 1, 0, 1)
    } else {
        (0, 0, 1)
    }
}

/// Whether the cursor `c` names the last trade of a sweep over `tables` tables.
pub open spec fn sweep_ends(c: (int, int, int), tables: int) -> bool {
    c.2 + 1 >= tables && c.1 + 2 >= tables && c.0 + 1 >= tables
}

/// Whether `a` and `b` have the same sizes, games, positions and kept totals.
pub open spec fn same_schedule(a: Schedule, b: Schedule) -> bool {
    &&& a.spec_players() == b.spec_players()
    &&& a.spec_tables() == b.spec_tables()
    &&& a.spec_matches() == b.spec_matches()
    &&& a.spec_positions() == b.spec_positions()
    &&& a.spec_opponent_cache() == b.spec_opponent_cache()
    &&& a.spec_games_cache() == b.spec_games_cache()
    &&& a.spec_opponents_cache() == b.spec_opponents_cache()
}

/// Whether `r` is what trying the trades of `table1` with `table2` in `round`
/// on `s` finds: the highest-ranking of keeping `s` and of each trade.
pub open spec fn is_trade_result(s: Schedule, round: int, table1: int, table2: int, r: (int, int)) -> bool {
    &&& (r == (s.cached_score(), s.spec_games_cache()) || exists|p1: int, p2: int|
        s.is_swap(round, table1, table2, p1, p2) && r == (
            #[trigger] s.swap_score(round, table1, table2, p1, p2),
            s.swap_games(round, table1, table2, p1, p2),
        ))
    &&& !ranks_below(r.0, r.1, s.cached_score(), s.spec_games_cache())
    &&& forall|p1: int, p2: int|
        s.is_swap(round, table1, table2, p1, p2) ==> !ranks_below(
            r.0,
            r.1,
            #[trigger] s.swap_score(round, table1, table2, p1, p2),
            s.swap_games(round, table1, table2, p1, p2),
        )
}

/// The score and tables played at that trying the trades of `table1` with
/// `table2` in `round` on `s` finds.
pub open spec fn trade_result(s: Schedule, round: int, table1: int, table2: int) -> (int, int) {
    choose|r: (int, int)| is_trade_result(s, round, table1, table2, r)
}

/// There is one result of trying the trades of two tables.
proof fn lemma_trade_result(s: Schedule, round: int, table1: int, table2: int, r: (int, int))
    requires
        is_trade_result(s, round, table1, table2, r),
    ensures
        trade_result(s, round, table1, table2) == r,
{
    let r2 = trade_result(s, round, table1, table2);
    assert(is_trade_result(s, round, table1, table2, r2));
    if r2 != (s.cached_score(), s.spec_games_cache()) {
        let (p1, p2) = choose|p1: int, p2: int|
            s.is_swap(round, table1, table2, p1, p2) && r2 == (
                #[trigger] s.swap_score(round, table1, table2, p1, p2),
                s.swap_games(round, table1, table2, p1, p2),
            );
        assert(!ranks_below(r.0, r.1, r2.0, r2.1));
    }
    if r != (s.cached_score(), s.spec_games_cache()) {
        let (p1, p2) = choose|p1: int, p2: int|
            s.is_swap(round, table1, table2, p1, p2) && r == (
                #[trigger] s.swap_score(round, table1, table2, p1, p2),
                s.swap_games(round, table1, table2, p1, p2),
            );
        assert(!ranks_below(r2.0, r2.1, r.0, r.1));
    }
}

/// Whether `s2` is `s` with the trade of `p1` with `p2`, among the trades of
/// table `c.1` with table `c.2` in round `c.0`, made in full: the trade ranks
/// above keeping `s`, above every trade tried before it, and no trade ranks
/// above it.
pub open spec fn trade_made(s: Schedule, s2: Schedule, c: (int, int, int), p1: int, p2: int) -> bool {
    let (round, t1, t2) = c;
    let sc = s.swap_score(round, t1, t2, p1, p2);
    let g = s.swap_games(round, t1, t2, p1, p2);
    &&& s.is_swap(round, t1, t2, p1, p2)
    &&& ranks_below(s.cached_score(), s.spec_games_cache(), sc, g)
    &&& forall|q1: int, q2: int|
        s.is_swap(round, t1, t2, q1, q2) && trade_before(q1, q2, p1, p2) ==> ranks_below(
            #[trigger] s.swap_score(round, t1, t2, q1, q2),
            s.swap_games(round, t1, t2, q1, q2),
            sc,
            g,
        )
    &&& forall|q1: int, q2: int|
        s.is_swap(round, t1, t2, q1, q2) ==> !ranks_below(
            sc,
            g,
            #[trigger] s.swap_score(round, t1, t2, q1, q2),
            s.swap_games(round, t1, t2, q1, q2),
        )
    &&& s2.spec_matches() == swap_matches(s.spec_matches(), s.spec_tables(), round, t1, t2, p1, p2)
    &&& s2.spec_positions() == swap_positions(s.spec_positions(), s.spec_tables(), round, p1, p2)
    &&& s2.caches_ok()
    &&& s2.is_seated()
}

/// Schedules with the same sizes, games, positions and kept totals score the
/// same and trade the same way.
proof fn lemma_same_schedule(a: Schedule, b: Schedule)
    requires
        a.spec_players() == b.spec_players(),
        a.spec_tables() == b.spec_tables(),
        a.spec_matches() == b.spec_matches(),
        a.spec_positions() == b.spec_positions(),
        a.spec_opponent_cache() == b.spec_opponent_cache(),
        a.spec_games_cache() == b.spec_games_cache(),
        a.spec_opponents_cache() == b.spec_opponents_cache(),
        a.wf(),
        b.wf(),
    ensures
        forall|r: int, t1: int, t2: int, p1: int, p2: int|
            #![trigger b.is_swap(r, t1, t2, p1, p2)]
            #![trigger a.is_swap(r, t1, t2, p1, p2)]
            a.is_swap(r, t1, t2, p1, p2) == b.is_swap(r, t1, t2, p1, p2),
        forall|r: int, t1: int, t2: int, p1: int, p2: int|
            #![trigger b.swap_score(r, t1, t2, p1, p2)]
            #![trigger a.swap_score(r, t1, t2, p1, p2)]
            a.swap_score(r, t1, t2, p1, p2) == b.swap_score(r, t1, t2, p1, p2),
        forall|r: int, t1: int, t2: int, p1: int, p2: int|
            #![trigger b.swap_games(r, t1, t2, p1, p2)]
            #![trigger a.swap_games(r, t1, t2, p1, p2)]
            a.swap_games(r, t1, t2, p1, p2) == b.swap_games(r, t1, t2, p1, p2),
        a.cached_score() == b.cached_score(),
        ready(&a) == ready(&b),
{
}

} // verus!

verus! {

/// The most players a table holds when `players` players are dealt in turn
/// over `tables` tables: the share rounded up.
pub open spec fn share(players: int, tables: int) -> int {
    if players % tables != 0 {
        players / tables + 1
    } else {
        players / tables
    }
}

/// Every game holds at most the rounded-up share of the players.
pub open spec fn balanced(m: Seq<u64>, tables: int, players: int) -> bool {
    forall|r: int, t: int|
        0 <= r < tables && 0 <= t < tables ==> pop(#[trigger] game_at(m, tables, r, t), 64) <= share(players, tables)
}

/// The players listed in `v`, as numbers.
pub open spec fn member_set(v: Seq<usize>) -> Set<int> {
    Set::new(|x: int| 0 <= x < 64 && v.contains(x as usize))
}

/// The indices below `n` that dealing from `offset` sends to table `t`.
pub open spec fn dealt_to(n: int, tables: int, offset: int, t: int) -> Set<int> {
    Set::new(|i: int| 0 <= i < n && (i + offset) % tables == t)
}

/// Dealing `n` indices over `tables` tables sends at most the rounded-up share
/// to each table.
proof fn lemma_dealt_len(n: int, tables: int, offset: int, t: int)
    requires
        0 <= n,
        1 <= tables,
        0 <= offset,
    ensures
        dealt_to(n, tables, offset, t).finite(),
        dealt_to(n, tables, offset, t).len() <= share(n, tables),
{
    let s = dealt_to(n, tables, offset, t);
    let sh = share(n, tables);
    vstd::set_lib::lemma_int_range(0, n);
    assert(s.subset_of(vstd::set_lib::set_int_range(0, n)));
    vstd::set_lib::lemma_len_subset(s, vstd::set_lib::set_int_range(0, n));
    let f = |i: int| i / tables;
    assert(sh * tables >= n) by {
        vstd::arithmetic::div_mod::lemma_fundamental_div_mod(n, tables);
        if n % tables != 0 {
            assert((n / tables + 1) * tables == (n / tables) * tables + tables) by (nonlinear_arith);
        }
        assert(tables * (n / tables) == (n / tables) * tables) by (nonlinear_arith);
    }
    assert(vstd::relations::injective_on(f, s)) by {
        assert forall|i: int, j: int| s.contains(i) && s.contains(j) && #[trigger] f(i) == #[trigger] f(j) implies i == j by {
            vstd::arithmetic::div_mod::lemma_fundamental_div_mod(i, tables);
            vstd::arithmetic::div_mod::lemma_fundamental_div_mod(j, tables);
            vstd::arithmetic::div_mod::lemma_fundamental_div_mod(i + offset, tables);
            vstd::arithmetic::div_mod::lemma_fundamental_div_mod(j + offset, tables);
            let qi = (i + offset) / tables;
            let qj = (j + offset) / tables;
            assert(i - j == tables * (qi - qj)) by (nonlinear_arith)
                requires
                    i + offset == tables * qi + (i + offset) % tables,
                    j + offset == tables * qj + (j + offset) % tables,
                    (i + offset) % tables == (j + offset) % tables;
            assert(i - j == i % tables - j % tables) by (nonlinear_arith)
                requires
                    i == tables * (i / tables) + i % tables,
                    j == tables * (j / tables) + j % tables,
                    i / tables == j / tables;
            assert(qi == qj) by (nonlinear_arith)
                requires
                    i - j == tables * (qi - qj),
                    -tables < i - j < tables,
                    tables >= 1;
        }
    }
    let img = s.map(f);
    vstd::set_lib::lemma_map_size(s, img, f);
    vstd::set_lib::lemma_int_range(0, sh);
    assert(img.subset_of(vstd::set_lib::set_int_range(0, sh))) by {
        assert forall|q: int| img.contains(q) implies 0 <= q < sh by {
            let i = choose|i: int| s.contains(i) && f(i) == q;
            vstd::arithmetic::div_mod::lemma_fundamental_div_mod(i, tables);
            assert(0 <= i / tables < sh) by (nonlinear_arith)
                requires
                    i == tables * (i / tables) + i % tables,
                    0 <= i % tables,
                    0 <= i < n,
                    sh * tables >= n,
                    tables >= 1;
        }
    }
    vstd::set_lib::lemma_len_subset(img, vstd::set_lib::set_int_range(0, sh));
}

/// A table of a round dealt from a list of distinct players holds at most the
/// rounded-up share of them.
proof fn lemma_deal_share(list: Seq<usize>, dealt: Seq<usize>, tables: int, offset: int, t: int)
    requires
        1 <= tables,
        0 <= offset,
        forall|x: usize| #[trigger] dealt.contains(x) <==> exists|i: int|
            0 <= i < list.len() && list[i] == x && (i + offset) % tables == t,
    ensures
        member_set(dealt).finite(),
        member_set(dealt).len() <= share(list.len() as int, tables),
{
    let s = dealt_to(list.len() as int, tables, offset, t);
    lemma_dealt_len(list.len() as int, tables, offset, t);
    let g = |i: int| list[i] as int;
    let img = s.map(g);
    vstd::set_lib::lemma_map_size_bound(s, img, g);
    assert(member_set(dealt).subset_of(img)) by {
        assert forall|x: int| member_set(dealt).contains(x) implies img.contains(x) by {
            assert(dealt.contains(x as usize));
            let i = choose|i: int| 0 <= i < list.len() && list[i] == x as usize && (i + offset) % tables == t;
            assert(s.contains(i) && g(i) == x);
        }
    }
    vstd::set_lib::lemma_len_subset(member_set(dealt), img);
}

/// The players of a word are as many as its set bits.
proof fn lemma_pop_is_len(w: u64)
    ensures
        pop(w, 64) == crate::bits::word_set(w).len(),
        crate::bits::word_set(w).finite(),
{
    lemma_pop_card(w, 64);
    assert(Set::new(|i: int| 0 <= i < 64 && bit(w, i)) =~= crate::bits::word_set(w));
}

/// The players met in the first `k` rounds, `player` included, are at most one
/// plus what each round's table adds beyond `player`.
proof fn lemma_union_bound(m: Seq<u64>, pos: Seq<u16>, tables: int, players: int, player: int, k: int)
    requires
        seated(m, pos, tables, players),
        balanced(m, tables, players),
        0 <= player < players,
        1 <= tables,
        0 <= k <= tables,
        m.len() == tables * tables,
        share(players, tables) >= 1,
    ensures
        pop(player_union(m, pos, tables, player, k), 64) <= if k == 0 {
            0
        } else {
            1 + k * (share(players, tables) - 1)
        },
        k > 0 ==> bit(player_union(m, pos, tables, player, k), player),
    decreases k,
{
    let sh = share(players, tables);
    if k > 0 {
        lemma_union_bound(m, pos, tables, players, player, k - 1);
        lemma_bit_ops();
        let a = player_union(m, pos, tables, player, k - 1);
        let c = pos[player * tables + k - 1] as int;
        assert((k - 1) * tables <= c < (k - 1) * tables + tables && bit(m[c], player)) by {
            assert(player * tables + (k - 1) == player * tables + k - 1);
        }
        let t = c - (k - 1) * tables;
        assert(game_at(m, tables, k - 1, t) == m[c]);
        assert(pop(m[c], 64) <= sh);
        assert(a | m[c] == player_union(m, pos, tables, player, k));
        let u = a | m[c];
        lemma_pop_is_len(a);
        lemma_pop_is_len(m[c]);
        lemma_pop_is_len(u);
        let sa = crate::bits::word_set(a);
        let sb = crate::bits::word_set(m[c]);
        assert(crate::bits::word_set(u) =~= sa.union(sb));
        if k == 1 {
            assert(a == 0u64);
            assert(sa =~= Set::<int>::empty());
            assert(crate::bits::word_set(u) =~= sb);
        } else {
            assert(sa.contains(player));
            assert(sa.union(sb) =~= sa.union(sb.remove(player)));
            vstd::set_lib::lemma_len_union(sa, sb.remove(player));
            assert((k - 1) * (sh - 1) + (sh - 1) == k * (sh - 1)) by (nonlinear_arith);
            assert(sa.union(sb).len() <= sa.len() + sb.len() - 1);
            assert(pop(a, 64) <= 1 + (k - 1) * (sh - 1));
            assert(pop(u, 64) <= 1 + (k - 1) * (sh - 1) + sh - 1);
        }
        assert(bit(u, player));
        assert(pop(u, 64) <= 1 + k * (sh - 1));
        assert(u == player_union(m, pos, tables, player, k));
    } else {
        lemma_bit_ops();
        lemma_pop_is_len(0u64);
        assert(crate::bits::word_set(0u64) =~= Set::<int>::empty());
    }
}

/// The sum over the first `k` players of the players each met is at most `k`
/// times the most one player can meet.
proof fn lemma_opponents_sum_share(m: Seq<u64>, pos: Seq<u16>, tables: int, players: int, k: int)
    requires
        seated(m, pos, tables, players),
        balanced(m, tables, players),
        1 <= tables,
        0 <= k <= players,
        m.len() == tables * tables,
        share(players, tables) >= 1,
    ensures
        opponents_sum(m, pos, tables, k) <= k * (1 + tables * (share(players, tables) - 1)),
    decreases k,
{
    if k > 0 {
        lemma_opponents_sum_share(m, pos, tables, players, k - 1);
        lemma_union_bound(m, pos, tables, players, k - 1, tables);
        let b = 1 + tables * (share(players, tables) - 1);
        assert((k - 1) * b + b == k * b) by (nonlinear_arith);
    }
}

/// In a schedule where every player sits at one table each round and no table
/// holds more than the rounded-up share of the players, the opponents met are
/// at most the ideal: each round adds at most a table's other players.
pub proof fn lemma_opponents_at_most_ideal(s: &Schedule)
    requires
        s.wf(),
        s.is_seated(),
        balanced(s.spec_matches(), s.spec_tables(), s.spec_players()),
    ensures
        s.opponents_total() <= s.spec_ideal_opponents(),
{
    let p = s.spec_players();
    let t = s.spec_tables();
    if p > 0 {
        assert(share(p, t) >= 1) by {
            if p % t == 0 {
                vstd::arithmetic::div_mod::lemma_fundamental_div_mod(p, t);
                assert(p / t >= 1) by (nonlinear_arith)
                    requires p == t * (p / t), p > 0, t >= 1;
            } else {
                assert(p / t >= 0) by (nonlinear_arith) requires p >= 0, t >= 1;
            }
        }
        lemma_opponents_sum_share(s.spec_matches(), s.spec_positions(), t, p, p);
        assert(p * (1 + t * (share(p, t) - 1)) - p == p * t * (share(p, t) - 1)) by (nonlinear_arith);
    }
}

} // verus!

verus! {

/// The `i`-th smallest of the listed members of a set listed in increasing
/// order is the `i`-th entry of the list.
proof fn lemma_sorted_nth(list: Seq<usize>, s: Set<int>, i: int)
    requires
        forall|a: int, b: int| 0 <= a < b < list.len() ==> list[a] < list[b],
        forall|a: int| 0 <= a < list.len() ==> s.contains(#[trigger] list[a] as int),
        forall|x: int| s.contains(x) ==> list.contains(x as usize) && 0 <= x < 64,
        0 <= i,
    ensures
        i < list.len() ==> crate::scheduler::nth_member(s, i) == Some(list[i] as int),
        i >= list.len() ==> crate::scheduler::nth_member(s, i) is None,
{
    let ls = Set::new(|k: int| 0 <= k < list.len());
    let f = |k: int| list[k] as int;
    assert(vstd::relations::injective_on(f, ls)) by {
        assert forall|a: int, b: int| ls.contains(a) && ls.contains(b) && #[trigger] f(a) == #[trigger] f(b) implies a == b by {
            if a < b {
                assert(list[a] < list[b]);
            } else if b < a {
                assert(list[b] < list[a]);
            }
        }
    }
    vstd::set_lib::lemma_int_range(0, list.len() as int);
    assert(ls =~= vstd::set_lib::set_int_range(0, list.len() as int));
    assert(ls.map(f) =~= s) by {
        assert forall|x: int| s.contains(x) implies ls.map(f).contains(x) by {
            let k = choose|k: int| 0 <= k < list.len() && list[k] == x as usize;
            assert(ls.contains(k) && f(k) == x);
        }
    }
    vstd::set_lib::lemma_map_size(ls, s, f);
    if i < list.len() {
        let x = list[i] as int;
        let lo = Set::new(|k: int| 0 <= k < i);
        vstd::set_lib::lemma_int_range(0, i);
        assert(lo =~= vstd::set_lib::set_int_range(0, i));
        assert(vstd::relations::injective_on(f, lo));
        assert(lo.map(f) =~= crate::scheduler::below(s, x)) by {
            assert forall|y: int| crate::scheduler::below(s, x).contains(y) implies lo.map(f).contains(y) by {
                let k = choose|k: int| 0 <= k < list.len() && list[k] == y as usize;
                if k >= i {
                    if k > i {
                        assert(list[i] < list[k]);
                    }
                }
                assert(lo.contains(k) && f(k) == y);
            }
            assert forall|y: int| lo.map(f).contains(y) implies crate::scheduler::below(s, x).contains(y) by {
                let k = choose|k: int| lo.contains(k) && f(k) == y;
                assert(list[k] < list[i]);
            }
        }
        vstd::set_lib::lemma_map_size(lo, crate::scheduler::below(s, x), f);
        assert(s.contains(x) && crate::scheduler::below(s, x).len() == i);
        let c = choose|y: int| #[trigger] s.contains(y) && crate::scheduler::below(s, y).len() == i;
        crate::scheduler::lemma_nth_unique_pub(s, x, c);
    } else {
        if exists|y: int| #[trigger] s.contains(y) && crate::scheduler::below(s, y).len() == i {
            let y = choose|y: int| #[trigger] s.contains(y) && crate::scheduler::below(s, y).len() == i;
            assert(crate::scheduler::below(s, y).subset_of(s.remove(y)));
            vstd::set_lib::lemma_len_subset(crate::scheduler::below(s, y), s.remove(y));
        }
    }
}

impl Schedule {
    /// The players of the game at `table` of `round`, as numbers.
    pub open spec fn game_players(&self, round: int, table: int) -> Set<int> {
        crate::bits::word_set(game_at(self.spec_matches(), self.spec_tables(), round, table)).filter(
            |x: int| x < self.spec_players(),
        )
    }

    /// The `i`-th smallest player of the game at `table` of `round`.
    pub open spec fn game_seats(&self) -> spec_fn(int, int, int) -> Option<int> {
        |round: int, table: int, i: int| crate::scheduler::nth_member(self.game_players(round, table), i)
    }

    /// The number of text rows per round: the players per table, plus one.
    pub open spec fn grid_rows(&self) -> int {
        self.spec_players() / self.spec_tables() + 1
    }

    /// Writes the schedule as a text grid: the table numbers, then for each
    /// round a separator and one row per seat, the round number on the middle
    /// row and each game's players in increasing order down its column.
    pub fn display_grid(&self, output: &mut String)
        requires
            self.wf(),
        ensures
            final(output)@ == old(output)@ + crate::text::grid_text(
                self.game_seats(),
                self.spec_tables(),
                self.grid_rows(),
            ),
    {
        proof {
            reveal_strlit("     ");
            reveal_strlit("|");
            reveal_strlit("  ");
            reveal_strlit("\n-----");
            reveal_strlit("+");
            reveal_strlit("-----");
            reveal_strlit("\n");
            reveal_strlit("\n     ");
        }
        let ghost o = output@;
        let t_count = self.tables;
        output.append("     ");
        let mut table: usize = 0;
        while table < t_count
            invariant
                t_count == self.spec_tables(),
                1 <= t_count <= 256,
                table <= t_count,
                output@ == o + crate::text::spaces(5) + crate::text::header_cells(table as int),
            decreases t_count - table,
        {
            proof {
                reveal_strlit("|");
                reveal_strlit("  ");
            }
            output.append("|");
            crate::text::append_padded(output, table + 1);
            output.append("  ");
            proof {
                assert(output@ =~= o + crate::text::spaces(5) + crate::text::header_cells(table + 1));
            }
            table = table + 1;
        }
        let n_rows = self.player_count / t_count + 1;
        let mut round: usize = 0;
        while round < t_count
            invariant
                self.wf(),
                t_count == self.spec_tables(),
                1 <= t_count <= 256,
                n_rows == self.grid_rows(),
                round <= t_count,
                output@ == o + crate::text::spaces(5) + crate::text::header_cells(t_count as int) + crate::text::blocks(
                    self.game_seats(),
                    t_count as int,
                    n_rows as int,
                    round as int,
                ),
            decreases t_count - round,
        {
            proof {
                reveal_strlit("\n-----");
                reveal_strlit("+");
                reveal_strlit("-----");
            }
            let ghost at_block = output@;
            output.append("\n-----");
            let mut k: usize = 0;
            while k < t_count
                invariant
                    k <= t_count,
                    output@ == at_block + seq!['\n', '-', '-', '-', '-', '-'] + crate::text::rule(k as int),
                decreases t_count - k,
            {
                proof {
                    reveal_strlit("+");
                    reveal_strlit("-----");
                }
                output.append("+");
                output.append("-----");
                proof {
                    assert(output@ =~= at_block + seq!['\n', '-', '-', '-', '-', '-'] + crate::text::rule(k + 1));
                }
                k = k + 1;
            }
            let ghost at_rows = output@;
            let mut i: usize = 0;
            while i < n_rows
                invariant
                    self.wf(),
                    t_count == self.spec_tables(),
                    1 <= t_count <= 256,
                    round < t_count,
                    n_rows == self.grid_rows(),
                    i <= n_rows,
                    output@ == at_rows + crate::text::rows_text(
                        self.game_seats(),
                        t_count as int,
                        n_rows as int,
                        round as int,
                        i as int,
                    ),
                decreases n_rows - i,
            {
                proof {
                    reveal_strlit("\n");
                    reveal_strlit("  ");
                    reveal_strlit("\n     ");
                }
                let ghost at_row = output@;
                if i == n_rows / 2 {
                    output.append("\n");
                    crate::text::append_padded(output, round + 1);
                    output.append("  ");
                } else {
                    output.append("\n     ");
                }
                proof {
                    assert(output@ =~= at_row + crate::text::row_lead(n_rows as int, round as int, i as int));
                }
                let ghost at_cells = output@;
                let mut t: usize = 0;
                while t < t_count
                    invariant
                        self.wf(),
                        t_count == self.spec_tables(),
                        1 <= t_count <= 256,
                        round < t_count,
                        i < n_rows,
                        t <= t_count,
                        output@ == at_cells + crate::text::row_cells(self.game_seats(), round as int, i as int, t as int),
                    decreases t_count - t,
                {
                    proof {
                        reveal_strlit("|");
                        reveal_strlit("  ");
                        reveal_strlit("     ");
                        assert(round * t_count + t < t_count * t_count) by (nonlinear_arith)
                            requires round < t_count, t < t_count;
                    }
                    output.append("|");
                    let list = self.get_game(round, t);
                    let ghost at_cell = output@;
                    proof {
                        let s = self.game_players(round as int, t as int);
                        assert forall|x: int| s.contains(x) implies list@.contains(x as usize) && 0 <= x < 64 by {}
                        lemma_sorted_nth(list@, s, i as int);
                    }
                    if i < list.len() {
                        crate::text::append_padded(output, list[i]);
                        output.append("  ");
                    } else {
                        output.append("     ");
                    }
                    proof {
                        assert(output@ =~= at_cell + crate::text::cell_text(self.game_seats()(round as int, t as int, i as int)));
                        assert(output@ =~= at_cells + crate::text::row_cells(self.game_seats(), round as int, i as int, t + 1));
                    }
                    t = t + 1;
                }
                proof {
                    assert(output@ =~= at_rows + crate::text::rows_text(
                        self.game_seats(),
                        t_count as int,
                        n_rows as int,
                        round as int,
                        i + 1,
                    ));
                }
                i = i + 1;
            }
            proof {
                assert(output@ =~= o + crate::text::spaces(5) + crate::text::header_cells(t_count as int) + crate::text::blocks(
                    self.game_seats(),
                    t_count as int,
                    n_rows as int,
                    round + 1,
                ));
            }
            round = round + 1;
        }
    }
}

} // verus!
