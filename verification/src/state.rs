//! The full game snapshot and its move generation.
//!
//! A state holds the bag, the factory displays, the center pile, the tray,
//! the players and the move counter. The central self-consistency invariant
//! is conservation: the total tile count across every zone is 100 (20 of
//! each of the five colors) in every reachable state.

use vstd::prelude::*;

use crate::grid::grid_of;
use crate::minmax::{DeterministicGameState, Evaluation, GameState};
use crate::player::{spec_discard_points, Player};
use crate::rng::RandomSource;
use crate::tile::{spec_tile_of, tile_index, tile_of, Tile, TileSet};

verus! {

/// The number of factory displays dealt each round. The base design fixes
/// five displays — the count for the two-player game its driver plays — and
/// leaves the slot count as a function of the player count an open
/// refinement.
pub const FACTORY_COUNT: usize = 5;

/// The number of tiles dealt to one factory display.
pub const FACTORY_SIZE: usize = 4;

/// The fixed number of tiles in play: twenty of each of the five colors.
pub const TILE_COUNT: usize = 100;

/// Every factory display at position `from` onwards holds at most `size`
/// tiles.
pub open spec fn appended_at_most(from: int, fs: Seq<TileSet>, size: int) -> bool {
    forall|j: int| from <= j < fs.len() ==> (#[trigger] fs[j]).total() <= size
}

/// Every factory display at position `from` onwards holds exactly `size`
/// tiles.
pub open spec fn appended_exactly(from: int, fs: Seq<TileSet>, size: int) -> bool {
    forall|j: int| from <= j < fs.len() ==> (#[trigger] fs[j]).total() == size
}

/// The first `k` players of `after` are the round-end results of the first
/// `k` players of `before`: full staging rows committed to the wall and
/// cleared, other rows kept, points scored then penalized (floored at zero),
/// discard piles emptied.
pub open spec fn players_round_ended_upto(before: Seq<Player>, after: Seq<Player>, k: int) -> bool {
    &&& after.len() == before.len()
    &&& k <= before.len()
    &&& forall|p: int, i: int|
        0 <= p < k && 0 <= i < 5 && before[p].is_full_row(i) ==> (#[trigger] after[p].rows[i]) is None
    &&& forall|p: int, i: int|
        0 <= p < k && 0 <= i < 5 && !before[p].is_full_row(i) ==> (#[trigger] after[p].rows[i])
            == before[p].rows[i]
    &&& forall|p: int| 0 <= p < k ==> grid_of((#[trigger] after[p]).wall) == before[p].commit_grid(5)
    &&& forall|p: int|
        0 <= p < k ==> (#[trigger] after[p]).points == ({
            let scored = before[p].commit_points(5);
            let pen = spec_discard_points(before[p].discard.total());
            if scored >= pen {
                scored - pen
            } else {
                0
            }
        })
    &&& forall|p: int| 0 <= p < k ==> (#[trigger] after[p]).discard.total() == 0
    &&& forall|p: int| 0 <= p < k ==> (#[trigger] after[p]).wf()
}

/// The full game snapshot.
#[derive(Clone, Debug, PartialEq, Eq)]
#[verifier::ext_equal]
pub struct State {
    pub bag: TileSet,
    pub factories: Vec<TileSet>,
    pub center: TileSet,
    pub tray: TileSet,
    pub players: Vec<Player>,
    pub moves: usize,
}

impl State {
    /// The number of tiles in the first `k` factory displays.
    pub open spec fn factories_upto(self, k: int) -> int
        decreases k,
    {
        if k <= 0 {
            0
        } else {
            self.factories_upto(k - 1) + self.factories@[k - 1].total()
        }
    }

    /// The number of tiles across all factory displays.
    pub open spec fn factories_total(self) -> int {
        self.factories_upto(self.factories@.len() as int)
    }

    /// The number of tiles held by the first `k` players.
    pub open spec fn players_upto(self, k: int) -> int
        decreases k,
    {
        if k <= 0 {
            0
        } else {
            self.players_upto(k - 1) + self.players@[k - 1].tile_total()
        }
    }

    /// The number of tiles held by all players.
    pub open spec fn players_total(self) -> int {
        self.players_upto(self.players@.len() as int)
    }

    /// The number of tiles in the discard piles of the first `k` players.
    pub open spec fn discards_upto(self, k: int) -> int
        decreases k,
    {
        if k <= 0 {
            0
        } else {
            self.discards_upto(k - 1) + self.players@[k - 1].discard.total()
        }
    }

    /// The number of tiles across all players' discard piles.
    pub open spec fn discards_total(self) -> int {
        self.discards_upto(self.players@.len() as int)
    }

    /// The tiles round-end processing would return to the tray from the
    /// full staging rows of the first `k` players.
    pub open spec fn returns_upto(self, k: int) -> int
        decreases k,
    {
        if k <= 0 {
            0
        } else {
            self.returns_upto(k - 1) + self.players@[k - 1].spec_row_returns()
        }
    }

    /// The tiles round-end processing would return to the tray from all
    /// players' full staging rows.
    pub open spec fn returns_total(self) -> int {
        self.returns_upto(self.players@.len() as int)
    }

    /// The total tile count across bag, factories, center, tray and players.
    pub open spec fn total(self) -> int {
        self.bag.total() + self.factories_total() + self.center.total() + self.tray.total()
            + self.players_total()
    }

    /// Whether the factories and the center are simultaneously empty (the
    /// condition that ends a round).
    pub open spec fn spec_is_empty(self) -> bool {
        self.factories_total() + self.center.total() == 0
    }

    /// Every player's staging rows are well-formed.
    pub open spec fn players_wf(self) -> bool {
        forall|p: int| 0 <= p < self.players@.len() ==> (#[trigger] self.players@[p]).wf()
    }

    /// The state invariant: at least one player, well-formed players, and
    /// the conserved total of 100 tiles.
    pub open spec fn inv(self) -> bool {
        &&& self.players@.len() >= 1
        &&& self.players_wf()
        &&& self.total() == TILE_COUNT
    }

    /// The player to move: the move counter modulo the player count.
    pub open spec fn spec_current_player(self) -> int {
        self.moves as int % self.players@.len() as int
    }

    /// Whether the game has concluded: some player has completed a wall row.
    pub open spec fn spec_game_over(self) -> bool {
        exists|p: int, r: int|
            0 <= p < self.players@.len() && 0 <= r < 5 && self.players@[p].wall.row_full(r)
    }

    /// The move counter after one drafting action: it advances by exactly
    /// one, saturating at the largest representable count.
    pub open spec fn spec_next_move(m: usize) -> int {
        if m < usize::MAX {
            m + 1
        } else {
            usize::MAX as int
        }
    }

    /// The highest point total among the first `k` players (`k` at least 1).
    pub open spec fn max_points_upto(self, k: int) -> int
        decreases k,
    {
        if k <= 1 {
            self.players@[0].points as int
        } else {
            let prev = self.max_points_upto(k - 1);
            if self.players@[k - 1].points as int > prev {
                self.players@[k - 1].points as int
            } else {
                prev
            }
        }
    }

    /// The winning score: defined exactly when the game is over, and then
    /// the maximum point total among the players.
    pub open spec fn spec_winner(self) -> Option<usize> {
        if self.spec_game_over() {
            Some((self.max_points_upto(self.players@.len() as int) as usize))
        } else {
            None
        }
    }

    /// States with the same players have the same maxima and the same
    /// game-over status, hence the same winning score.
    pub proof fn lemma_winner_parts(self, other: State)
        requires
            self.players@ == other.players@,
        ensures
            self.spec_game_over() == other.spec_game_over(),
            self.spec_winner() == other.spec_winner(),
    {
        if self.spec_game_over() {
            let (p, r) = choose|p: int, r: int|
                0 <= p < self.players@.len() && 0 <= r < 5 && self.players@[p].wall.row_full(r);
            assert(other.players@[p].wall.row_full(r));
        }
        if other.spec_game_over() {
            let (p, r) = choose|p: int, r: int|
                0 <= p < other.players@.len() && 0 <= r < 5 && other.players@[p].wall.row_full(r);
            assert(self.players@[p].wall.row_full(r));
        }
        self.lemma_max_points_parts(other, self.players@.len() as int);
    }

    proof fn lemma_max_points_parts(self, other: State, k: int)
        requires
            self.players@ == other.players@,
        ensures
            self.max_points_upto(k) == other.max_points_upto(k),
        decreases k,
    {
        if k > 1 {
            self.lemma_max_points_parts(other, k - 1);
        }
    }

    /// Prefix sums of factory tiles are monotone and non-negative.
    pub proof fn lemma_factories_bounds(self, k: int, j: int)
        requires
            0 <= j <= k,
        ensures
            0 <= self.factories_upto(j) <= self.factories_upto(k),
        decreases k,
    {
        if k > 0 {
            if j == k {
                self.lemma_factories_bounds(k - 1, k - 1);
            } else {
                self.lemma_factories_bounds(k - 1, j);
            }
        }
    }

    /// States with the same first `k` factory displays hold the same number
    /// of tiles there.
    pub proof fn lemma_factories_parts(self, other: State, k: int)
        requires
            forall|j: int| 0 <= j < k ==> self.factories@[j] == other.factories@[j],
        ensures
            self.factories_upto(k) == other.factories_upto(k),
        decreases k,
    {
        if k > 0 {
            self.lemma_factories_parts(other, k - 1);
        }
    }

    /// Prefix sums of player tiles are monotone and non-negative.
    pub proof fn lemma_players_bounds(self, k: int, j: int)
        requires
            0 <= j <= k <= self.players@.len(),
        ensures
            0 <= self.players_upto(j) <= self.players_upto(k),
        decreases k,
    {
        if k > 0 {
            let q = self.players@[k - 1];
            q.lemma_staged_nonneg(5, 0);
            q.wall.lemma_count_bounds();
            if j == k {
                self.lemma_players_bounds(k - 1, k - 1);
            } else {
                self.lemma_players_bounds(k - 1, j);
            }
        }
    }

    /// States with the same first `k` players hold the same number of tiles
    /// there.
    pub proof fn lemma_players_parts(self, other: State, k: int)
        requires
            forall|j: int| 0 <= j < k ==> self.players@[j] == other.players@[j],
        ensures
            self.players_upto(k) == other.players_upto(k),
        decreases k,
    {
        if k > 0 {
            self.lemma_players_parts(other, k - 1);
        }
    }

    /// Appending a factory display adds its tiles to the factory total.
    pub proof fn lemma_factories_push(self, other: State, ts: TileSet)
        requires
            other.factories@ == self.factories@.push(ts),
        ensures
            other.factories_total() == self.factories_total() + ts.total(),
    {
        let n = self.factories@.len() as int;
        self.lemma_factories_parts(other, n);
        assert(other.factories@[n] == ts);
    }

    /// Removing a factory display takes its tiles out of the factory total.
    pub proof fn lemma_factories_remove(self, other: State, fi: int)
        requires
            0 <= fi < self.factories@.len(),
            other.factories@ == self.factories@.remove(fi),
        ensures
            other.factories_total() == self.factories_total() - self.factories@[fi].total(),
    {
        let n = self.factories@.len() as int;
        self.lemma_factories_remove_upto(other, fi, n - 1);
    }

    proof fn lemma_factories_remove_upto(self, other: State, fi: int, k: int)
        requires
            0 <= fi < self.factories@.len(),
            other.factories@ == self.factories@.remove(fi),
            0 <= k <= self.factories@.len() - 1,
        ensures
            other.factories_upto(k) == if k <= fi {
                self.factories_upto(k)
            } else {
                self.factories_upto(k + 1) - self.factories@[fi].total()
            },
        decreases k,
    {
        if k > 0 {
            self.lemma_factories_remove_upto(other, fi, k - 1);
            assert(other.factories_upto(k) == other.factories_upto(k - 1) + other.factories@[k
                - 1].total());
            if k - 1 < fi {
                assert(other.factories@[k - 1] == self.factories@[k - 1]);
            } else {
                assert(other.factories@[k - 1] == self.factories@[k]);
            }
            if k > fi {
                assert(self.factories_upto(k + 1) == self.factories_upto(k)
                    + self.factories@[k].total());
                assert(self.factories_upto(k) == self.factories_upto(k - 1) + self.factories@[k
                    - 1].total());
            }
        }
    }

    /// Replacing one player changes the players' tile total by the
    /// difference that player contributes.
    pub proof fn lemma_players_update(self, other: State, idx: int, k: int)
        requires
            0 <= idx < self.players@.len(),
            other.players@ == self.players@.update(idx, other.players@[idx]),
            k <= self.players@.len(),
        ensures
            other.players_upto(k) == self.players_upto(k) + if idx < k {
                other.players@[idx].tile_total() - self.players@[idx].tile_total()
            } else {
                0
            },
        decreases k,
    {
        if k > 0 {
            self.lemma_players_update(other, idx, k - 1);
        }
    }


    /// States whose factories, center, players and move counter agree have
    /// the same number of drafting actions.
    pub proof fn lemma_branch_count_parts(self, other: State)
        requires
            self.factories@ == other.factories@,
            self.center == other.center,
            self.players@ == other.players@,
            self.moves == other.moves,
        ensures
            self.branch_count() == other.branch_count(),
    {
        self.lemma_factory_branches_parts(other, self.factories@.len() as int);
    }

    proof fn lemma_factory_branches_parts(self, other: State, k: int)
        requires
            self.factories@ == other.factories@,
            self.players@ == other.players@,
            self.moves == other.moves,
        ensures
            self.factory_branches(k) == other.factory_branches(k),
        decreases k,
    {
        if k > 0 {
            self.lemma_factory_branches_parts(other, k - 1);
        }
    }

    /// A fresh game for `players` players: a bag of twenty tiles per color,
    /// no factories dealt, empty center and tray, no progress, move zero.
    pub fn new(players: usize) -> (s: State)
        ensures
            s.bag.total() == 100,
            forall|t: Tile| s.bag.spec_count(t) == 20,
            s.factories@.len() == 0,
            s.center.total() == 0,
            s.tray.total() == 0,
            s.players@.len() == players,
            forall|p: int| 0 <= p < players ==> (#[trigger] s.players@[p]).tile_total() == 0,
            forall|p: int| 0 <= p < players ==> (#[trigger] s.players@[p]).points == 0,
            s.players_wf(),
            s.moves == 0,
            s.total() == 100,
            players >= 1 ==> s.inv(),
    {
        let bag = TileSet { black: 20, white: 20, azul: 20, yellow: 20, red: 20 };
        let mut player_list: Vec<Player> = Vec::new();
        for i in 0..players
            invariant
                player_list@.len() == i,
                forall|p: int|
                    0 <= p < i ==> (#[trigger] player_list@[p]).tile_total() == 0
                        && player_list@[p].wf() && player_list@[p].points == 0,
        {
            player_list.push(Player::new());
        }
        let s = State {
            bag,
            factories: Vec::new(),
            center: TileSet::new(),
            tray: TileSet::new(),
            players: player_list,
            moves: 0,
        };
        proof {
            s.lemma_zero_players_total(s.players@.len() as int);
            assert(s.factories_upto(0) == 0);
        }
        s
    }

    /// Players who hold no tiles sum to no tiles.
    proof fn lemma_zero_players_total(self, k: int)
        requires
            0 <= k <= self.players@.len(),
            forall|p: int| 0 <= p < k ==> (#[trigger] self.players@[p]).tile_total() == 0,
        ensures
            self.players_upto(k) == 0,
        decreases k,
    {
        if k > 0 {
            self.lemma_zero_players_total(k - 1);
        }
    }

    /// Deals a new round of factories: refills the bag from the tray when
    /// fewer than twenty tiles remain, then draws five fresh factory
    /// displays of four tiles each (fewer only in the degenerate case where
    /// bag and tray together cannot cover a full deal). Five displays is
    /// the count for the two-player game; a slot count varying with the
    /// player count is left open by the base design.
    pub fn deal(&mut self, rng: &mut RandomSource)
        requires
            old(self).total() <= usize::MAX,
        ensures
            final(self).center == old(self).center,
            old(self).bag.total() < 20 ==> final(self).tray.total() == 0,
            old(self).bag.total() >= 20 ==> final(self).tray == old(self).tray,
            final(self).players@ == old(self).players@,
            final(self).moves == old(self).moves,
            final(self).factories@.len() == old(self).factories@.len() + 5,
            forall|j: int|
                0 <= j < old(self).factories@.len() ==> final(self).factories@[j] == old(
                    self,
                ).factories@[j],
            appended_at_most(old(self).factories@.len() as int, final(self).factories@, 4),
            old(self).bag.total() + old(self).tray.total() >= 20 ==> appended_exactly(
                old(self).factories@.len() as int,
                final(self).factories@,
                4,
            ),
            final(self).bag.total() + final(self).factories_total() + final(self).tray.total()
                == old(self).bag.total() + old(self).factories_total() + old(self).tray.total(),
            final(self).total() == old(self).total(),
    {
        let ghost s0 = *self;
        proof {
            self.lemma_factories_bounds(self.factories@.len() as int, 0);
            self.lemma_players_bounds(self.players@.len() as int, 0);
        }
        if self.bag.len() < FACTORY_SIZE * FACTORY_COUNT {
            let tmp = self.tray;
            self.tray = TileSet::new();
            self.bag.extend(tmp);
        }
        let ghost s1 = *self;
        proof {
            s0.lemma_factories_parts(s1, s0.factories@.len() as int);
            s0.lemma_players_parts(s1, s0.players@.len() as int);
        }
        for i in 0..FACTORY_COUNT
            invariant
                self.center == s1.center,
                self.tray == s1.tray,
                self.players@ == s1.players@,
                self.moves == s1.moves,
                self.factories@.len() == s1.factories@.len() + i,
                forall|j: int|
                    0 <= j < s1.factories@.len() ==> self.factories@[j] == s1.factories@[j],
                appended_at_most(s1.factories@.len() as int, self.factories@, 4),
                s1.bag.total() >= 20 ==> self.bag.total() == s1.bag.total() - 4 * i,
                s1.bag.total() >= 20 ==> appended_exactly(
                    s1.factories@.len() as int,
                    self.factories@,
                    4,
                ),
                self.bag.total() >= 0,
                self.bag.total() + self.factories_total() == s1.bag.total()
                    + s1.factories_total(),
                self.bag.total() + self.factories_total() <= usize::MAX,
        {
            let ghost pre = *self;
            proof {
                self.lemma_factories_bounds(self.factories@.len() as int, 0);
            }
            let avail = self.bag.len();
            let k = if avail < FACTORY_SIZE {
                avail
            } else {
                FACTORY_SIZE
            };
            let tiles = self.bag.draw(rng, k);
            self.factories.push(tiles);
            proof {
                pre.lemma_factories_parts(*self, pre.factories@.len() as int);
                pre.lemma_factories_push(*self, tiles);
            }
        }
        proof {
            s1.lemma_players_parts(*self, s1.players@.len() as int);
        }
    }

    /// Round-end processing: when all factories and the center are empty,
    /// every player scores (completed rows commit to the walls, the discard
    /// penalty applies) and a fresh set of factories is dealt; in every case
    /// the move counter then advances by one.
    pub fn prepare_next_round(&mut self, rng: &mut RandomSource)
        requires
            old(self).inv(),
        ensures
            final(self).inv(),
            final(self).players@.len() == old(self).players@.len(),
            final(self).moves == State::spec_next_move(old(self).moves),
            !old(self).spec_is_empty() ==> final(self).bag == old(self).bag
                && final(self).factories@ == old(self).factories@ && final(self).center == old(
                self,
            ).center && final(self).tray == old(self).tray && final(self).players@ == old(
                self,
            ).players@,
            old(self).spec_is_empty() ==> ({
                &&& final(self).factories@.len() == old(self).factories@.len() + 5
                &&& appended_at_most(old(self).factories@.len() as int, final(self).factories@, 4)
                &&& (old(self).bag.total() + old(self).tray.total() + old(self).discards_total()
                    + old(self).returns_total() >= 20) ==> appended_exactly(
                    old(self).factories@.len() as int,
                    final(self).factories@,
                    4,
                )
                &&& final(self).center == old(self).center
                &&& players_round_ended_upto(
                    old(self).players@,
                    final(self).players@,
                    old(self).players@.len() as int,
                )
            }),
    {
        let ghost s0 = *self;
        proof {
            self.lemma_factories_bounds(self.factories@.len() as int, 0);
            self.lemma_players_bounds(self.players@.len() as int, 0);
        }
        if self.is_empty() {
            let mut tray = self.tray;
            let plen = self.players.len();
            for i in 0..plen
                invariant
                    s0.inv(),
                    plen == self.players@.len(),
                    self.players@.len() == s0.players@.len(),
                    self.bag == s0.bag,
                    self.factories@ == s0.factories@,
                    self.center == s0.center,
                    self.tray == s0.tray,
                    self.moves == s0.moves,
                    forall|j: int| i <= j < plen ==> self.players@[j] == s0.players@[j],
                    players_round_ended_upto(s0.players@, self.players@, i as int),
                    self.players_total() + tray.total() == s0.players_total() + s0.tray.total(),
                    tray.total() == s0.tray.total() + s0.discards_upto(i as int)
                        + s0.returns_upto(i as int),
                    s0.players_total() + s0.tray.total() <= 100,
            {
                let ghost pre = *self;
                proof {
                    // the player to process still holds its board from before the round end
                    assert(pre.players@[i as int] == s0.players@[i as int]);
                    // element bounds: one player's tiles fit the budget
                    pre.lemma_players_bounds(pre.players@.len() as int, i as int + 1);
                    pre.lemma_players_bounds(i as int + 1, i as int);
                    pre.lemma_players_bounds(i as int, 0);
                    assert(pre.players_upto(i as int + 1) == pre.players_upto(i as int)
                        + pre.players@[i as int].tile_total());
                    let q = pre.players@[i as int];
                    q.lemma_staged_nonneg(5, 0);
                    q.wall.lemma_count_bounds();
                    crate::player::lemma_discard_points_bounds(
                        q.discard.total(),
                        q.discard.total(),
                    );
                }
                let mut pl = self.players[i];
                pl.prepare_next_round(&mut tray);
                self.players.set(i, pl);
                proof {
                    pre.lemma_players_update(*self, i as int, plen as int);
                    assert(s0.discards_upto(i as int + 1) == s0.discards_upto(i as int)
                        + s0.players@[i as int].discard.total());
                    assert(s0.returns_upto(i as int + 1) == s0.returns_upto(i as int)
                        + s0.players@[i as int].spec_row_returns());
                }
            }
            let ghost after_loop = *self;
            self.tray = tray;
            let ghost mid = *self;
            proof {
                s0.lemma_factories_parts(mid, s0.factories@.len() as int);
                after_loop.lemma_players_parts(mid, after_loop.players@.len() as int);
                assert(mid.total() == 100);
                assert(s0.discards_upto(plen as int) == s0.discards_total());
                assert(s0.returns_upto(plen as int) == s0.returns_total());
            }
            self.deal(rng);
            proof {
                mid.lemma_players_parts(*self, mid.players@.len() as int);
            }
        }
        let ghost before_moves = *self;
        self.moves = self.moves.saturating_add(1);
        proof {
            before_moves.lemma_factories_parts(*self, before_moves.factories@.len() as int);
            before_moves.lemma_players_parts(*self, before_moves.players@.len() as int);
            if !s0.spec_is_empty() {
                s0.lemma_factories_parts(*self, s0.factories@.len() as int);
                s0.lemma_players_parts(*self, s0.players@.len() as int);
            }
        }
    }

    /// An independent copy of the state: every zone holds the same tiles.
    pub fn duplicate(&self) -> (r: State)
        ensures
            r.bag == self.bag,
            r.factories@ == self.factories@,
            r.center == self.center,
            r.tray == self.tray,
            r.players@ == self.players@,
            r.moves == self.moves,
            r.total() == self.total(),
            r.inv() == self.inv(),
    {
        let mut factories: Vec<TileSet> = Vec::new();
        let flen = self.factories.len();
        for i in 0..flen
            invariant
                flen == self.factories@.len(),
                factories@.len() == i,
                forall|j: int| 0 <= j < i ==> factories@[j] == self.factories@[j],
        {
            factories.push(self.factories[i]);
        }
        let mut players: Vec<Player> = Vec::new();
        let plen = self.players.len();
        for i in 0..plen
            invariant
                plen == self.players@.len(),
                players@.len() == i,
                forall|j: int| 0 <= j < i ==> players@[j] == self.players@[j],
        {
            players.push(self.players[i]);
        }
        let r = State {
            bag: self.bag,
            factories,
            center: self.center,
            tray: self.tray,
            players,
            moves: self.moves,
        };
        proof {
            assert(r.factories@ =~= self.factories@);
            assert(r.players@ =~= self.players@);
            r.lemma_factories_parts(*self, r.factories@.len() as int);
            r.lemma_players_parts(*self, r.players@.len() as int);
        }
        r
    }

    /// The total tile count across all zones.
    pub fn tile_count(&self) -> (n: usize)
        requires
            self.total() <= usize::MAX,
        ensures
            n == self.total(),
    {
        proof {
            self.lemma_factories_bounds(self.factories@.len() as int, 0);
            self.lemma_players_bounds(self.players@.len() as int, 0);
        }
        let mut n: usize = self.bag.len();
        let flen = self.factories.len();
        for i in 0..flen
            invariant
                flen == self.factories@.len(),
                n == self.bag.total() + self.factories_upto(i as int),
                self.total() <= usize::MAX,
        {
            proof {
                self.lemma_factories_bounds(self.factories@.len() as int, i as int + 1);
                self.lemma_factories_bounds(i as int + 1, i as int);
                self.lemma_players_bounds(self.players@.len() as int, 0);
            }
            n = n + self.factories[i].len();
        }
        n = n + self.center.len() + self.tray.len();
        let plen = self.players.len();
        for i in 0..plen
            invariant
                plen == self.players@.len(),
                n == self.bag.total() + self.factories_total() + self.center.total()
                    + self.tray.total() + self.players_upto(i as int),
                self.total() <= usize::MAX,
        {
            proof {
                self.lemma_players_bounds(self.players@.len() as int, i as int + 1);
                self.lemma_players_bounds(i as int + 1, i as int);
            }
            n = n + self.players[i].tile_count();
        }
        n
    }

    /// The diagnostic consistency check: whether the total tile count across
    /// all zones equals the fixed constant of 100 tiles.
    pub fn self_check(&self) -> (ok: bool)
        requires
            self.total() <= usize::MAX,
        ensures
            ok == (self.total() == 100),
    {
        self.tile_count() == TILE_COUNT
    }

    /// Whether the factories and the center are all empty.
    pub fn is_empty(&self) -> (r: bool)
        requires
            self.total() <= usize::MAX,
        ensures
            r == self.spec_is_empty(),
    {
        proof {
            self.lemma_factories_bounds(self.factories@.len() as int, 0);
            self.lemma_players_bounds(self.players@.len() as int, 0);
        }
        let mut n: usize = 0;
        let flen = self.factories.len();
        for i in 0..flen
            invariant
                flen == self.factories@.len(),
                n == self.factories_upto(i as int),
                self.total() <= usize::MAX,
        {
            proof {
                self.lemma_factories_bounds(self.factories@.len() as int, i as int + 1);
                self.lemma_factories_bounds(i as int + 1, i as int);
                self.lemma_players_bounds(self.players@.len() as int, 0);
            }
            n = n + self.factories[i].len();
        }
        n + self.center.len() == 0
    }



    /// The number of successors a draft of each present color of `ts` would
    /// give the player, summed over the first `k` colors.
    pub open spec fn color_branches(p: Player, ts: TileSet, k: int) -> int
        decreases k,
    {
        if k <= 0 {
            0
        } else {
            State::color_branches(p, ts, k - 1) + if ts.spec_count(spec_tile_of(k - 1)) > 0 {
                p.placements_of(spec_tile_of(k - 1))
            } else {
                0int
            }
        }
    }

    /// The number of successors of the drafts from the first `k` factory
    /// displays.
    pub open spec fn factory_branches(self, k: int) -> int
        decreases k,
    {
        if k <= 0 {
            0
        } else {
            self.factory_branches(k - 1) + State::color_branches(
                self.players@[self.spec_current_player()],
                self.factories@[k - 1],
                5,
            )
        }
    }

    /// The number of legal drafting actions from this state, counting every
    /// (origin, color, accepting row or forced discard) combination: the
    /// exact number of successors move generation yields.
    pub open spec fn branch_count(self) -> int {
        self.factory_branches(self.factories@.len() as int) + State::color_branches(
            self.players@[self.spec_current_player()],
            self.center,
            5,
        )
    }

    /// Whether board `q` is board `p` after staging `count` drafted tiles
    /// of color `tile` on row `row`: the row takes what fits, the surplus
    /// joins the discard pile, and nothing else of the board changes.
    pub open spec fn staged_player(p: Player, q: Player, tile: Tile, count: int, row: int) -> bool {
        let space = row + 1 - p.row_fill(row);
        let fitted = if count <= space {
            count
        } else {
            space
        };
        &&& q.rows[row] == Some((tile, (p.row_fill(row) + fitted) as usize))
        &&& forall|j: int| 0 <= j < 5 && j != row ==> q.rows[j] == p.rows[j]
        &&& q.discard.spec_count(tile) == p.discard.spec_count(tile) + (count - fitted)
        &&& forall|u: Tile| u != tile ==> q.discard.spec_count(u) == p.discard.spec_count(u)
        &&& q.wall == p.wall
        &&& q.points == p.points
    }

    /// Whether board `q` is board `p` after a forced discard of the whole
    /// draft of `count` tiles of color `tile`.
    pub open spec fn discarded_player(p: Player, q: Player, tile: Tile, count: int) -> bool {
        &&& forall|j: int| 0 <= j < 5 ==> q.rows[j] == p.rows[j]
        &&& q.discard.spec_count(tile) == p.discard.spec_count(tile) + count
        &&& forall|u: Tile| u != tile ==> q.discard.spec_count(u) == p.discard.spec_count(u)
        &&& q.wall == p.wall
        &&& q.points == p.points
    }

    /// Whether the players of `child` differ from those of `self` exactly
    /// by the current player staging `count` drafted tiles of color `tile`
    /// on row `row`.
    pub open spec fn spec_player_staged(self, child: State, tile: Tile, count: int, row: int) -> bool {
        let cur = self.spec_current_player();
        &&& child.players@.len() == self.players@.len()
        &&& forall|j: int|
            0 <= j < self.players@.len() && j != cur ==> child.players@[j] == self.players@[j]
        &&& State::staged_player(self.players@[cur], child.players@[cur], tile, count, row)
    }

    /// Whether the players of `child` differ from those of `self` exactly
    /// by the current player discarding the whole draft.
    pub open spec fn spec_player_discarded(self, child: State, tile: Tile, count: int) -> bool {
        let cur = self.spec_current_player();
        &&& child.players@.len() == self.players@.len()
        &&& forall|j: int|
            0 <= j < self.players@.len() && j != cur ==> child.players@[j] == self.players@[j]
        &&& State::discarded_player(self.players@[cur], child.players@[cur], tile, count)
    }

    /// Whether `child` is exactly the successor in which the current player
    /// stages `count` drafted tiles of color `tile` on row `row`, with every
    /// other zone unchanged and the move counter advanced. (This describes
    /// the successors of drafts that leave tiles pending; a draft that
    /// empties factories and center additionally triggers round-end
    /// processing.)
    #[verifier::opaque]
    pub open spec fn spec_staged_child(self, child: State, tile: Tile, count: int, row: int) -> bool {
        &&& child.bag == self.bag
        &&& child.factories@ == self.factories@
        &&& child.center == self.center
        &&& child.tray == self.tray
        &&& child.moves == State::spec_next_move(self.moves)
        &&& self.spec_player_staged(child, tile, count, row)
    }

    /// Whether `child` is exactly the successor in which the current player
    /// takes all tiles of color `tile` from the center and stages them on
    /// row `row` (of a draft that leaves tiles pending elsewhere).
    #[verifier::opaque]
    pub open spec fn spec_center_draft_child(self, child: State, tile: Tile, row: int) -> bool {
        &&& child.bag == self.bag
        &&& child.factories@ == self.factories@
        &&& child.tray == self.tray
        &&& child.center.spec_count(tile) == 0
        &&& forall|u: Tile| u != tile ==> child.center.spec_count(u) == self.center.spec_count(u)
        &&& child.moves == State::spec_next_move(self.moves)
        &&& self.spec_player_staged(child, tile, self.center.spec_count(tile), row)
    }

    /// Whether `child` is exactly the successor in which the current player
    /// takes all tiles of color `tile` from factory `fi` and stages them on
    /// row `row`: the factory leaves the display list, its remaining tiles
    /// move to the center (of a draft that leaves tiles pending elsewhere).
    #[verifier::opaque]
    pub open spec fn spec_factory_draft_child(
        self,
        child: State,
        fi: int,
        tile: Tile,
        row: int,
    ) -> bool {
        &&& child.bag == self.bag
        &&& child.factories@ == self.factories@.remove(fi)
        &&& child.tray == self.tray
        &&& child.center.spec_count(tile) == self.center.spec_count(tile)
        &&& forall|u: Tile|
            u != tile ==> child.center.spec_count(u) == self.center.spec_count(u)
                + self.factories@[fi].spec_count(u)
        &&& child.moves == State::spec_next_move(self.moves)
        &&& self.spec_player_staged(child, tile, self.factories@[fi].spec_count(tile), row)
    }

    /// Whether `child` is exactly the successor in which the current player
    /// is forced to discard the whole draft of `count` tiles of color
    /// `tile`, with every other zone unchanged.
    #[verifier::opaque]
    pub open spec fn spec_discarded_child(self, child: State, tile: Tile, count: int) -> bool {
        &&& child.bag == self.bag
        &&& child.factories@ == self.factories@
        &&& child.center == self.center
        &&& child.tray == self.tray
        &&& child.moves == State::spec_next_move(self.moves)
        &&& self.spec_player_discarded(child, tile, count)
    }

    /// The common shape of a successor whose draft ended the round:
    /// round-end processing ran after the current player's board became
    /// `sp`, a fresh set of five factories (of at most four tiles each) was
    /// dealt onto the `base_len` displays that remained, the center stayed
    /// empty and the move counter advanced.
    pub open spec fn spec_redeal_shell(self, child: State, base_len: int, sp: Player) -> bool {
        &&& players_round_ended_upto(
            self.players@.update(self.spec_current_player(), sp),
            child.players@,
            self.players@.len() as int,
        )
        &&& child.moves == State::spec_next_move(self.moves)
        &&& child.factories@.len() == base_len + 5
        &&& appended_at_most(base_len, child.factories@, 4)
        &&& child.center.total() == 0
    }

    /// A successor of a round-ending draft staged on row `row`.
    #[verifier::opaque]
    pub open spec fn spec_staged_redeal_child(
        self,
        child: State,
        base_len: int,
        tile: Tile,
        count: int,
        row: int,
    ) -> bool {
        exists|sp: Player|
            #![trigger State::staged_player(self.players@[self.spec_current_player()], sp, tile, count, row)]
            State::staged_player(self.players@[self.spec_current_player()], sp, tile, count, row)
                && self.spec_redeal_shell(child, base_len, sp)
    }

    /// A successor of a round-ending draft that was forced to discard.
    #[verifier::opaque]
    pub open spec fn spec_discard_redeal_child(
        self,
        child: State,
        base_len: int,
        tile: Tile,
        count: int,
    ) -> bool {
        exists|sp: Player|
            #![trigger State::discarded_player(self.players@[self.spec_current_player()], sp, tile, count)]
            State::discarded_player(self.players@[self.spec_current_player()], sp, tile, count)
                && self.spec_redeal_shell(child, base_len, sp)
    }

    /// Whether `child` is one of the successors a draft of `count` tiles of
    /// color `tile` yields with the current player: staged on some
    /// accepting row, or wholly discarded when no row accepts, with
    /// round-end processing applied when the draft emptied factories and
    /// center.
    #[verifier::opaque]
    pub open spec fn spec_place_successor(self, child: State, tile: Tile, count: int) -> bool {
        let pcur = self.players@[self.spec_current_player()];
        ||| exists|row: int|
            0 <= row < 5 && (#[trigger] pcur.accepts(tile, row)) && (if !self.spec_is_empty() {
                self.spec_staged_child(child, tile, count, row)
            } else {
                self.spec_staged_redeal_child(child, self.factories@.len() as int, tile, count, row)
            })
        ||| (pcur.accepts_upto(tile, 5) == 0 && (if !self.spec_is_empty() {
            self.spec_discarded_child(child, tile, count)
        } else {
            self.spec_discard_redeal_child(child, self.factories@.len() as int, tile, count)
        }))
    }


    /// Whether `child` is exactly the successor in which the current player
    /// takes all tiles of color `tile` from factory `fi` and is forced to
    /// discard them (of a draft that leaves tiles pending elsewhere).
    #[verifier::opaque]
    pub open spec fn spec_factory_discard_child(self, child: State, fi: int, tile: Tile) -> bool {
        &&& child.bag == self.bag
        &&& child.factories@ == self.factories@.remove(fi)
        &&& child.tray == self.tray
        &&& child.center.spec_count(tile) == self.center.spec_count(tile)
        &&& forall|u: Tile|
            u != tile ==> child.center.spec_count(u) == self.center.spec_count(u)
                + self.factories@[fi].spec_count(u)
        &&& child.moves == State::spec_next_move(self.moves)
        &&& self.spec_player_discarded(child, tile, self.factories@[fi].spec_count(tile))
    }

    /// Whether `child` is exactly the successor in which the current player
    /// takes all tiles of color `tile` from the center and is forced to
    /// discard them (of a draft that leaves tiles pending elsewhere).
    #[verifier::opaque]
    pub open spec fn spec_center_discard_child(self, child: State, tile: Tile) -> bool {
        &&& child.bag == self.bag
        &&& child.factories@ == self.factories@
        &&& child.tray == self.tray
        &&& child.center.spec_count(tile) == 0
        &&& forall|u: Tile| u != tile ==> child.center.spec_count(u) == self.center.spec_count(u)
        &&& child.moves == State::spec_next_move(self.moves)
        &&& self.spec_player_discarded(child, tile, self.center.spec_count(tile))
    }

    /// Whether `child` is one of the successors of drafting color `tile`
    /// from factory `fi`: staged on an accepting row or wholly discarded,
    /// with round-end processing applied when the draft emptied factories
    /// and center (the display leaves the list either way).
    pub open spec fn spec_factory_child(self, child: State, fi: int, tile: Tile) -> bool {
        let count = self.factories@[fi].spec_count(tile);
        let pending = self.factories_total() + self.center.total();
        let pcur = self.players@[self.spec_current_player()];
        ||| exists|row: int|
            0 <= row < 5 && (#[trigger] pcur.accepts(tile, row)) && (if count < pending {
                self.spec_factory_draft_child(child, fi, tile, row)
            } else {
                self.spec_staged_redeal_child(
                    child,
                    self.factories@.len() - 1,
                    tile,
                    count,
                    row,
                )
            })
        ||| (pcur.accepts_upto(tile, 5) == 0 && (if count < pending {
            self.spec_factory_discard_child(child, fi, tile)
        } else {
            self.spec_discard_redeal_child(child, self.factories@.len() - 1, tile, count)
        }))
    }

    /// Whether `child` is one of the successors of drafting color `tile`
    /// from the center.
    pub open spec fn spec_center_child(self, child: State, tile: Tile) -> bool {
        let count = self.center.spec_count(tile);
        let pending = self.factories_total() + self.center.total();
        let pcur = self.players@[self.spec_current_player()];
        ||| exists|row: int|
            0 <= row < 5 && (#[trigger] pcur.accepts(tile, row)) && (if count < pending {
                self.spec_center_draft_child(child, tile, row)
            } else {
                self.spec_staged_redeal_child(child, self.factories@.len() as int, tile, count, row)
            })
        ||| (pcur.accepts_upto(tile, 5) == 0 && (if count < pending {
            self.spec_center_discard_child(child, tile)
        } else {
            self.spec_discard_redeal_child(child, self.factories@.len() as int, tile, count)
        }))
    }

    /// Whether `child` is a successor of one of the legal drafting actions
    /// from this state: some present color of some factory display, or some
    /// present color of the center.
    #[verifier::opaque]
    pub open spec fn spec_child_of(self, child: State) -> bool {
        ||| exists|fi: int, t: Tile|
            0 <= fi < self.factories@.len() && (#[trigger] self.factories@[fi].spec_count(t)) > 0
                && self.spec_factory_child(child, fi, t)
        ||| exists|t: Tile|
            (#[trigger] self.center.spec_count(t)) > 0 && self.spec_center_child(child, t)
    }

    /// Lifts a round-ending staged successor described against an
    /// intermediate state with the same players and move counter to this
    /// state.
    proof fn lemma_lift_redeal(self, st: State, tile: Tile, cnt: int, row: int, base_len: int, c: State)
        requires
            st.players@ == self.players@,
            st.moves == self.moves,
            st.spec_staged_redeal_child(c, base_len, tile, cnt, row),
        ensures
            self.spec_staged_redeal_child(c, base_len, tile, cnt, row),
    {
        reveal(State::spec_staged_redeal_child);
        assert(st.spec_current_player() == self.spec_current_player());
        let sp = choose|sp: Player|
            #![trigger State::staged_player(st.players@[st.spec_current_player()], sp, tile, cnt, row)]
            State::staged_player(st.players@[st.spec_current_player()], sp, tile, cnt, row)
                && st.spec_redeal_shell(c, base_len, sp);
        assert(st.players@.update(st.spec_current_player(), sp) == self.players@.update(
            self.spec_current_player(),
            sp,
        ));
        assert(self.spec_redeal_shell(c, base_len, sp));
        assert(State::staged_player(
            self.players@[self.spec_current_player()],
            sp,
            tile,
            cnt,
            row,
        ));
    }

    /// Lifts the successors of staging a factory draft, described against
    /// the intermediate state `st` (the factory removed, its remainder in
    /// the center), to draft successors of this state.
    proof fn lemma_lift_factory(self, st: State, fi: int, tile: Tile, cnt: int, c: State)
        requires
            0 <= fi < self.factories@.len(),
            cnt == self.factories@[fi].spec_count(tile),
            cnt >= 1,
            st.bag == self.bag,
            st.factories@ == self.factories@.remove(fi),
            st.tray == self.tray,
            st.players@ == self.players@,
            st.players@.len() == self.players@.len(),
            st.moves == self.moves,
            st.center.spec_count(tile) == self.center.spec_count(tile),
            forall|u: Tile|
                u != tile ==> st.center.spec_count(u) == self.center.spec_count(u)
                    + self.factories@[fi].spec_count(u),
            st.factories_total() == self.factories_total() - self.factories@[fi].total(),
            st.center.total() == self.center.total() + self.factories@[fi].total() - cnt,
            st.spec_place_successor(c, tile, cnt),
        ensures
            self.spec_factory_child(c, fi, tile),
    {
        reveal(State::spec_place_successor);
        reveal(State::spec_staged_redeal_child);
        reveal(State::spec_discard_redeal_child);
        reveal(State::spec_staged_child);
        reveal(State::spec_discarded_child);
        reveal(State::spec_factory_draft_child);
        reveal(State::spec_center_draft_child);
        reveal(State::spec_factory_discard_child);
        reveal(State::spec_center_discard_child);
        st.lemma_factories_bounds(st.factories@.len() as int, 0);
        let pending = self.factories_total() + self.center.total();
        assert(st.factories_total() + st.center.total() == pending - cnt);
        assert(st.spec_is_empty() == (cnt == pending));
        assert(st.spec_current_player() == self.spec_current_player());
        let pcur = self.players@[self.spec_current_player()];
        assert(st.players@[st.spec_current_player()] == pcur);
        if exists|row: int|
            0 <= row < 5 && (#[trigger] pcur.accepts(tile, row)) && (if !st.spec_is_empty() {
                st.spec_staged_child(c, tile, cnt, row)
            } else {
                st.spec_staged_redeal_child(c, st.factories@.len() as int, tile, cnt, row)
            }) {
            let row = choose|row: int|
                0 <= row < 5 && (#[trigger] pcur.accepts(tile, row)) && (if !st.spec_is_empty() {
                    st.spec_staged_child(c, tile, cnt, row)
                } else {
                    st.spec_staged_redeal_child(c, st.factories@.len() as int, tile, cnt, row)
                });
            if !st.spec_is_empty() {
                assert(self.spec_factory_draft_child(c, fi, tile, row));
            } else {
                let sp = choose|sp: Player|
                    #![trigger State::staged_player(st.players@[st.spec_current_player()], sp, tile, cnt, row)]
                    State::staged_player(st.players@[st.spec_current_player()], sp, tile, cnt, row)
                        && st.spec_redeal_shell(c, st.factories@.len() as int, sp);
                assert(st.players@.update(st.spec_current_player(), sp) == self.players@.update(
                    self.spec_current_player(),
                    sp,
                ));
                assert(self.spec_redeal_shell(c, self.factories@.len() - 1, sp));
                assert(self.spec_staged_redeal_child(
                    c,
                    self.factories@.len() - 1,
                    tile,
                    cnt,
                    row,
                ));
            }
        } else {
            assert(pcur.accepts_upto(tile, 5) == 0);
            if !st.spec_is_empty() {
                assert(self.spec_factory_discard_child(c, fi, tile));
            } else {
                let sp = choose|sp: Player|
                    #![trigger State::discarded_player(st.players@[st.spec_current_player()], sp, tile, cnt)]
                    State::discarded_player(st.players@[st.spec_current_player()], sp, tile, cnt)
                        && st.spec_redeal_shell(c, st.factories@.len() as int, sp);
                assert(st.players@.update(st.spec_current_player(), sp) == self.players@.update(
                    self.spec_current_player(),
                    sp,
                ));
                assert(self.spec_redeal_shell(c, self.factories@.len() - 1, sp));
                assert(self.spec_discard_redeal_child(c, self.factories@.len() - 1, tile, cnt));
            }
        }
    }

    /// Lifts the successors of staging a center draft, described against
    /// the intermediate state `st` (the color drained from the center), to
    /// draft successors of this state.
    proof fn lemma_lift_center(self, st: State, tile: Tile, cnt: int, c: State)
        requires
            cnt == self.center.spec_count(tile),
            cnt >= 1,
            st.bag == self.bag,
            st.factories@ == self.factories@,
            st.tray == self.tray,
            st.players@ == self.players@,
            st.players@.len() == self.players@.len(),
            st.moves == self.moves,
            st.center.spec_count(tile) == 0,
            forall|u: Tile| u != tile ==> st.center.spec_count(u) == self.center.spec_count(u),
            st.factories_total() == self.factories_total(),
            st.center.total() == self.center.total() - cnt,
            st.spec_place_successor(c, tile, cnt),
        ensures
            self.spec_center_child(c, tile),
    {
        reveal(State::spec_place_successor);
        reveal(State::spec_staged_redeal_child);
        reveal(State::spec_discard_redeal_child);
        reveal(State::spec_staged_child);
        reveal(State::spec_discarded_child);
        reveal(State::spec_factory_draft_child);
        reveal(State::spec_center_draft_child);
        reveal(State::spec_factory_discard_child);
        reveal(State::spec_center_discard_child);
        st.lemma_factories_bounds(st.factories@.len() as int, 0);
        let pending = self.factories_total() + self.center.total();
        assert(st.factories_total() + st.center.total() == pending - cnt);
        assert(st.spec_is_empty() == (cnt == pending));
        assert(st.spec_current_player() == self.spec_current_player());
        let pcur = self.players@[self.spec_current_player()];
        assert(st.players@[st.spec_current_player()] == pcur);
        if exists|row: int|
            0 <= row < 5 && (#[trigger] pcur.accepts(tile, row)) && (if !st.spec_is_empty() {
                st.spec_staged_child(c, tile, cnt, row)
            } else {
                st.spec_staged_redeal_child(c, st.factories@.len() as int, tile, cnt, row)
            }) {
            let row = choose|row: int|
                0 <= row < 5 && (#[trigger] pcur.accepts(tile, row)) && (if !st.spec_is_empty() {
                    st.spec_staged_child(c, tile, cnt, row)
                } else {
                    st.spec_staged_redeal_child(c, st.factories@.len() as int, tile, cnt, row)
                });
            if !st.spec_is_empty() {
                assert(self.spec_center_draft_child(c, tile, row));
            } else {
                let sp = choose|sp: Player|
                    #![trigger State::staged_player(st.players@[st.spec_current_player()], sp, tile, cnt, row)]
                    State::staged_player(st.players@[st.spec_current_player()], sp, tile, cnt, row)
                        && st.spec_redeal_shell(c, st.factories@.len() as int, sp);
                assert(st.players@.update(st.spec_current_player(), sp) == self.players@.update(
                    self.spec_current_player(),
                    sp,
                ));
                assert(self.spec_redeal_shell(c, self.factories@.len() as int, sp));
                assert(self.spec_staged_redeal_child(
                    c,
                    self.factories@.len() as int,
                    tile,
                    cnt,
                    row,
                ));
            }
        } else {
            assert(pcur.accepts_upto(tile, 5) == 0);
            if !st.spec_is_empty() {
                assert(self.spec_center_discard_child(c, tile));
            } else {
                let sp = choose|sp: Player|
                    #![trigger State::discarded_player(st.players@[st.spec_current_player()], sp, tile, cnt)]
                    State::discarded_player(st.players@[st.spec_current_player()], sp, tile, cnt)
                        && st.spec_redeal_shell(c, st.factories@.len() as int, sp);
                assert(st.players@.update(st.spec_current_player(), sp) == self.players@.update(
                    self.spec_current_player(),
                    sp,
                ));
                assert(self.spec_redeal_shell(c, self.factories@.len() as int, sp));
                assert(self.spec_discard_redeal_child(
                    c,
                    self.factories@.len() as int,
                    tile,
                    cnt,
                ));
            }
        }
    }

    /// Stages `count` drafted tiles of color `tile` with the current player:
    /// one successor per staging row that accepts the color (each with
    /// round-end processing already applied), or a single successor in which
    /// the whole draft is discarded when no row accepts it. Every drafted
    /// tile lands in a row or in the discard, so each successor again holds
    /// 100 tiles.
    pub fn place_all(&self, tile: Tile, count: usize, rng: &mut RandomSource) -> (r: Vec<State>)
        requires
            self.players@.len() >= 1,
            self.players_wf(),
            1 <= count,
            self.total() + count == 100,
        ensures
            1 <= r@.len() <= 5,
            forall|i: int| 0 <= i < r@.len() ==> (#[trigger] r@[i]).inv(),
            forall|i: int|
                0 <= i < r@.len() ==> (#[trigger] r@[i]).players@.len() == self.players@.len(),
            forall|i: int|
                0 <= i < r@.len() ==> (#[trigger] r@[i]).moves == State::spec_next_move(
                    self.moves,
                ),
            (forall|row: int|
                0 <= row < 5 ==> !self.players@[self.spec_current_player()].accepts(
                    tile,
                    row,
                )) ==> r@.len() == 1,
            r@.len() == self.players@[self.spec_current_player()].placements_of(tile),
            !self.spec_is_empty() ==> forall|row: int|
                0 <= row < 5 && self.players@[self.spec_current_player()].accepts(tile, row)
                    ==> exists|i: int|
                    0 <= i < r@.len() && self.spec_staged_child(
                        #[trigger] r@[i],
                        tile,
                        count as int,
                        row,
                    ),
            (!self.spec_is_empty() && self.players@[self.spec_current_player()].accepts_upto(
                tile,
                5,
            ) == 0) ==> self.spec_discarded_child(r@[0], tile, count as int),
            forall|i: int|
                0 <= i < r@.len() ==> self.spec_place_successor(
                    #[trigger] r@[i],
                    tile,
                    count as int,
                ),
            self.spec_is_empty() ==> forall|row: int|
                0 <= row < 5 && self.players@[self.spec_current_player()].accepts(tile, row)
                    ==> exists|i: int|
                    0 <= i < r@.len() && self.spec_staged_redeal_child(
                        #[trigger] r@[i],
                        self.factories@.len() as int,
                        tile,
                        count as int,
                        row,
                    ),
    {
        let player_index = self.current_player();
        let ghost cur = self.spec_current_player();
        let mut states: Vec<State> = Vec::new();
        proof {
            self.lemma_players_bounds(self.players@.len() as int, player_index as int + 1);
            self.lemma_players_bounds(player_index as int + 1, player_index as int);
            self.lemma_players_bounds(player_index as int, 0);
            self.lemma_factories_bounds(self.factories@.len() as int, 0);
            assert(self.players_upto(player_index as int + 1) == self.players_upto(
                player_index as int,
            ) + self.players@[player_index as int].tile_total());
            let q = self.players@[player_index as int];
            q.lemma_staged_nonneg(5, 0);
            q.wall.lemma_count_bounds();
        }
        for row in 0..5usize
            invariant
                self.players@.len() >= 1,
                self.players_wf(),
                1 <= count,
                self.total() + count == 100,
                player_index as int == cur,
                cur == self.spec_current_player(),
                0 <= cur < self.players@.len(),
                self.players@[cur].discard.spec_count(tile) + count <= usize::MAX,
                states@.len() <= row,
                forall|i: int| 0 <= i < states@.len() ==> (#[trigger] states@[i]).inv(),
                forall|i: int|
                    0 <= i < states@.len() ==> (#[trigger] states@[i]).players@.len()
                        == self.players@.len(),
                forall|i: int|
                    0 <= i < states@.len() ==> (#[trigger] states@[i]).moves
                        == State::spec_next_move(self.moves),
                (states@.len() == 0) <==> (forall|r2: int|
                    0 <= r2 < row ==> !self.players@[cur].accepts(tile, r2)),
                states@.len() == self.players@[cur].accepts_upto(tile, row as int),
                !self.spec_is_empty() ==> forall|r2: int|
                    0 <= r2 < row && self.players@[cur].accepts(tile, r2) ==> exists|i: int|
                        0 <= i < states@.len() && self.spec_staged_child(
                            #[trigger] states@[i],
                            tile,
                            count as int,
                            r2,
                        ),
                forall|i: int|
                    0 <= i < states@.len() ==> self.spec_place_successor(
                        #[trigger] states@[i],
                        tile,
                        count as int,
                    ),
                self.spec_is_empty() ==> forall|r2: int|
                    0 <= r2 < row && self.players@[cur].accepts(tile, r2) ==> exists|i: int|
                        0 <= i < states@.len() && self.spec_staged_redeal_child(
                            #[trigger] states@[i],
                            self.factories@.len() as int,
                            tile,
                            count as int,
                            r2,
                        ),
        {
            let ghost states_before = states@;
            let mut state = self.duplicate();
            let mut p = state.players[player_index];
            let placed = p.maybe_place(tile, count, row);
            if placed {
                let ghost pre_set = state;
                state.players.set(player_index, p);
                proof {
                    pre_set.lemma_players_update(
                        state,
                        player_index as int,
                        state.players@.len() as int,
                    );
                    pre_set.lemma_factories_parts(state, pre_set.factories@.len() as int);
                    self.lemma_factories_parts(pre_set, self.factories@.len() as int);
                    self.lemma_players_parts(pre_set, self.players@.len() as int);
                    assert(state.players@[player_index as int] == p);
                    assert forall|j: int| 0 <= j < state.players@.len() implies (
                    #[trigger] state.players@[j]).wf() by {
                        if j != player_index as int {
                            assert(state.players@[j] == self.players@[j]);
                        }
                    }
                    assert(state.total() == 100);
                }
                let ghost staged = state;
                state.prepare_next_round(rng);
                proof {
                    // a draft changes no factory and not the center, so the
                    // staged state ends the round exactly when `self` would
                    self.lemma_factories_parts(staged, self.factories@.len() as int);
                    assert(staged.spec_is_empty() == self.spec_is_empty());
                }
                states.push(state);
                proof {
                    reveal(State::spec_staged_child);
                    assert(self.players@[cur].accepts_upto(tile, row as int + 1)
                        == self.players@[cur].accepts_upto(tile, row as int) + 1);
                    assert(self.players@[self.spec_current_player()].accepts(tile, row as int));
                    if self.spec_is_empty() {
                        self.lemma_factories_bounds(self.factories@.len() as int, 0);
                        assert(self.center.total() == 0);
                        assert(staged.players@ =~= self.players@.update(
                            self.spec_current_player(),
                            p,
                        ));
                        assert(State::staged_player(
                            self.players@[self.spec_current_player()],
                            p,
                            tile,
                            count as int,
                            row as int,
                        ));
                        assert(self.spec_redeal_shell(state, self.factories@.len() as int, p));
                        reveal(State::spec_staged_redeal_child);
                        assert(self.spec_staged_redeal_child(
                            state,
                            self.factories@.len() as int,
                            tile,
                            count as int,
                            row as int,
                        ));
                        reveal(State::spec_place_successor);
                        assert(self.spec_place_successor(state, tile, count as int));
                        assert forall|r2: int|
                            0 <= r2 < row + 1 && self.players@[cur].accepts(tile, r2)
                                implies exists|i: int|
                                0 <= i < states@.len() && self.spec_staged_redeal_child(
                                    #[trigger] states@[i],
                                    self.factories@.len() as int,
                                    tile,
                                    count as int,
                                    r2,
                                ) by {
                            if r2 < row {
                                let i = choose|i: int|
                                    0 <= i < states_before.len() && self.spec_staged_redeal_child(
                                        states_before[i],
                                        self.factories@.len() as int,
                                        tile,
                                        count as int,
                                        r2,
                                    );
                                assert(states@[i] == states_before[i]);
                            } else {
                                assert(states@[states@.len() - 1] == state);
                            }
                        }
                    }
                    if !self.spec_is_empty() {
                        assert(state.factories@ == self.factories@);
                        assert(self.spec_staged_child(state, tile, count as int, row as int))
                            by {
                            assert forall|j: int|
                                0 <= j < self.players@.len() && j != self.spec_current_player()
                                    implies state.players@[j] == self.players@[j] by {
                                assert(state.players@[j] == staged.players@[j]);
                                assert(pre_set.players@.update(player_index as int, p)[j]
                                    == pre_set.players@[j]);
                                assert(staged.players@[j] == pre_set.players@[j]);
                                assert(pre_set.players@[j] == self.players@[j]);
                            }
                        }
                        reveal(State::spec_place_successor);
                        assert(self.spec_place_successor(state, tile, count as int));
                        assert forall|r2: int|
                            0 <= r2 < row + 1 && self.players@[cur].accepts(tile, r2)
                                implies exists|i: int|
                                0 <= i < states@.len() && self.spec_staged_child(
                                    #[trigger] states@[i],
                                    tile,
                                    count as int,
                                    r2,
                                ) by {
                            if r2 < row {
                                let i = choose|i: int|
                                    0 <= i < states_before.len() && self.spec_staged_child(
                                        states_before[i],
                                        tile,
                                        count as int,
                                        r2,
                                    );
                                assert(states@[i] == states_before[i]);
                            } else {
                                assert(states@[states@.len() - 1] == state);
                            }
                        }
                    }
                }
            } else {
                proof {
                    assert(self.players@[cur].accepts_upto(tile, row as int + 1)
                        == self.players@[cur].accepts_upto(tile, row as int));
                }
            }
        }
        proof {
            self.players@[cur].lemma_accepts_bounds(tile, 5);
        }
        if states.len() == 0 {
            let mut state = self.duplicate();
            let mut p = state.players[player_index];
            let ghost p_before = p;
            p.discard.add_tiles(tile, count);
            proof {
                p_before.lemma_staged_upto_parts(p, 5);
                assert forall|j: int| 0 <= j < 5 implies p.row_ok(j) by {
                    assert(p_before.row_ok(j));
                }
                assert(p.tile_total() == p_before.tile_total() + count);
            }
            let ghost pre_set = state;
            state.players.set(player_index, p);
            proof {
                pre_set.lemma_players_update(
                    state,
                    player_index as int,
                    state.players@.len() as int,
                );
                pre_set.lemma_factories_parts(state, pre_set.factories@.len() as int);
                self.lemma_factories_parts(pre_set, self.factories@.len() as int);
                self.lemma_players_parts(pre_set, self.players@.len() as int);
                assert(state.players@[player_index as int] == p);
                assert forall|j: int| 0 <= j < state.players@.len() implies (
                #[trigger] state.players@[j]).wf() by {
                    if j != player_index as int {
                        assert(state.players@[j] == self.players@[j]);
                    }
                }
                assert(state.total() == 100);
            }
            let ghost staged = state;
            state.prepare_next_round(rng);
            proof {
                self.lemma_factories_parts(staged, self.factories@.len() as int);
                assert(staged.spec_is_empty() == self.spec_is_empty());
            }
            states.push(state);
            proof {
                if self.spec_is_empty() {
                    self.lemma_factories_bounds(self.factories@.len() as int, 0);
                    assert(self.center.total() == 0);
                    assert(staged.players@ =~= self.players@.update(
                        self.spec_current_player(),
                        p,
                    ));
                    assert(State::discarded_player(
                        self.players@[self.spec_current_player()],
                        p,
                        tile,
                        count as int,
                    ));
                    assert(self.spec_redeal_shell(state, self.factories@.len() as int, p));
                    reveal(State::spec_discard_redeal_child);
                    assert(self.spec_discard_redeal_child(
                        state,
                        self.factories@.len() as int,
                        tile,
                        count as int,
                    ));
                    reveal(State::spec_place_successor);
                    assert(self.spec_place_successor(state, tile, count as int));
                }
                if !self.spec_is_empty() {
                    reveal(State::spec_discarded_child);
                    assert(self.spec_discarded_child(states@[0], tile, count as int)) by {
                        assert(states@[0] == state);
                        assert forall|j: int|
                            0 <= j < self.players@.len() && j != self.spec_current_player()
                                implies state.players@[j] == self.players@[j] by {
                            assert(state.players@[j] == staged.players@[j]);
                            assert(pre_set.players@.update(player_index as int, p)[j]
                                == pre_set.players@[j]);
                            assert(staged.players@[j] == pre_set.players@[j]);
                            assert(pre_set.players@[j] == self.players@[j]);
                        }
                    }
                    reveal(State::spec_place_successor);
                    assert(self.spec_place_successor(state, tile, count as int));
                }
            }
        }
        states
    }

    /// Enumerates every legal drafting action of the current player and
    /// returns the resulting successor states, round-end processing already
    /// applied to each: take all tiles of one color from one factory (the
    /// rest of that factory moves to the center, and the emptied display
    /// leaves the list), or take all tiles of one color from the center;
    /// then stage them on each accepting row, or discard them all when no
    /// row accepts. The successors number exactly `branch_count`; every
    /// draft that leaves tiles pending appears among them with its exact
    /// effect; every element is the successor of one of the enumerated
    /// drafts (round-ending drafts carry their staged board through
    /// round-end processing); conservation holds of each; and a state with
    /// pending tiles always has at least one successor.
    #[verifier::rlimit(40)]
    pub fn children(&self, rng: &mut RandomSource) -> (r: Vec<State>)
        requires
            self.inv(),
        ensures
            forall|i: int| 0 <= i < r@.len() ==> (#[trigger] r@[i]).inv(),
            forall|i: int|
                0 <= i < r@.len() ==> (#[trigger] r@[i]).players@.len() == self.players@.len(),
            forall|i: int|
                0 <= i < r@.len() ==> (#[trigger] r@[i]).moves == State::spec_next_move(
                    self.moves,
                ),
            r@.len() == self.branch_count(),
            !self.spec_is_empty() ==> r@.len() >= 1,
            forall|fi: int, t: Tile, row: int|
                #![trigger self.factories@[fi].spec_count(t), self.players@[self.spec_current_player()].accepts(t, row)]
                (0 <= fi < self.factories@.len() && self.factories@[fi].spec_count(t) > 0 && 0
                    <= row < 5 && self.players@[self.spec_current_player()].accepts(t, row)
                    && self.factories@[fi].spec_count(t) < self.factories_total()
                    + self.center.total()) ==> exists|i: int|
                    0 <= i < r@.len() && self.spec_factory_draft_child(#[trigger] r@[i], fi, t, row),
            forall|t: Tile, row: int|
                #![trigger self.center.spec_count(t), self.players@[self.spec_current_player()].accepts(t, row)]
                (self.center.spec_count(t) > 0 && 0 <= row < 5
                    && self.players@[self.spec_current_player()].accepts(t, row)
                    && self.center.spec_count(t) < self.factories_total() + self.center.total())
                    ==> exists|i: int|
                    0 <= i < r@.len() && self.spec_center_draft_child(#[trigger] r@[i], t, row),
            forall|fi: int, t: Tile, row: int|
                #![trigger self.factories@[fi].spec_count(t), self.players@[self.spec_current_player()].accepts(t, row)]
                (0 <= fi < self.factories@.len() && self.factories@[fi].spec_count(t) > 0 && 0
                    <= row < 5 && self.players@[self.spec_current_player()].accepts(t, row)
                    && self.factories@[fi].spec_count(t) == self.factories_total()
                    + self.center.total()) ==> exists|i: int|
                    0 <= i < r@.len() && self.spec_staged_redeal_child(
                        #[trigger] r@[i],
                        self.factories@.len() - 1,
                        t,
                        self.factories@[fi].spec_count(t),
                        row,
                    ),
            forall|t: Tile, row: int|
                #![trigger self.center.spec_count(t), self.players@[self.spec_current_player()].accepts(t, row)]
                (self.center.spec_count(t) > 0 && 0 <= row < 5
                    && self.players@[self.spec_current_player()].accepts(t, row)
                    && self.center.spec_count(t) == self.factories_total() + self.center.total())
                    ==> exists|i: int|
                    0 <= i < r@.len() && self.spec_staged_redeal_child(
                        #[trigger] r@[i],
                        self.factories@.len() as int,
                        t,
                        self.center.spec_count(t),
                        row,
                    ),
            forall|i: int| 0 <= i < r@.len() ==> self.spec_child_of(#[trigger] r@[i]),
    {
        let mut kids: Vec<State> = Vec::new();
        let ghost pcur = self.players@[self.spec_current_player()];
        let flen = self.factories.len();
        for fi in 0..flen
            invariant
                self.inv(),
                flen == self.factories@.len(),
                forall|i: int| 0 <= i < kids@.len() ==> (#[trigger] kids@[i]).inv(),
                forall|i: int|
                    0 <= i < kids@.len() ==> (#[trigger] kids@[i]).players@.len()
                        == self.players@.len(),
                forall|i: int|
                    0 <= i < kids@.len() ==> (#[trigger] kids@[i]).moves == State::spec_next_move(
                        self.moves,
                    ),
                self.factories_upto(fi as int) > 0 ==> kids@.len() >= 1,
                pcur == self.players@[self.spec_current_player()],
                kids@.len() == self.factory_branches(fi as int),
                forall|i: int| 0 <= i < kids@.len() ==> self.spec_child_of(#[trigger] kids@[i]),
                forall|fj: int, t: Tile, row: int|
                    #![trigger self.factories@[fj].spec_count(t), pcur.accepts(t, row)]
                    (0 <= fj < fi && self.factories@[fj].spec_count(t) > 0 && 0 <= row < 5
                        && pcur.accepts(t, row) && self.factories@[fj].spec_count(t)
                        < self.factories_total() + self.center.total()) ==> exists|i: int|
                        0 <= i < kids@.len() && self.spec_factory_draft_child(
                            #[trigger] kids@[i],
                            fj,
                            t,
                            row,
                        ),
                forall|fj: int, t: Tile, row: int|
                    #![trigger self.factories@[fj].spec_count(t), pcur.accepts(t, row)]
                    (0 <= fj < fi && self.factories@[fj].spec_count(t) > 0 && 0 <= row < 5
                        && pcur.accepts(t, row) && self.factories@[fj].spec_count(t)
                        == self.factories_total() + self.center.total()) ==> exists|i: int|
                        0 <= i < kids@.len() && self.spec_staged_redeal_child(
                            #[trigger] kids@[i],
                            self.factories@.len() - 1,
                            t,
                            self.factories@[fj].spec_count(t),
                            row,
                        ),
        {
            let mut base = self.duplicate();
            let ghost base0 = base;
            let factory = base.factories.remove(fi);
            proof {
                assert(factory == self.factories@[fi as int]);
                base0.lemma_factories_remove(base, fi as int);
                base0.lemma_players_parts(base, base0.players@.len() as int);
                self.lemma_factories_parts(base0, self.factories@.len() as int);
                factory.lemma_total_upto();
                assert(base.factories@ =~= self.factories@.remove(fi as int));
            }
            for ti in 0..5usize
                invariant
                    self.inv(),
                    flen == self.factories@.len(),
                    fi < flen,
                    factory == self.factories@[fi as int],
                    base.players@ == self.players@,
                    base.moves == self.moves,
                    base.players@.len() == self.players@.len(),
                    base.total() == 100 - factory.total(),
                    base.bag == self.bag,
                    base.center == self.center,
                    base.tray == self.tray,
                    base.factories@ == self.factories@.remove(fi as int),
                    base.factories_total() == self.factories_total() - factory.total(),
                    forall|i: int| 0 <= i < kids@.len() ==> (#[trigger] kids@[i]).inv(),
                    forall|i: int|
                        0 <= i < kids@.len() ==> (#[trigger] kids@[i]).players@.len()
                            == self.players@.len(),
                    forall|i: int|
                        0 <= i < kids@.len() ==> (#[trigger] kids@[i]).moves
                            == State::spec_next_move(self.moves),
                    self.factories_upto(fi as int) > 0 ==> kids@.len() >= 1,
                    factory.total_upto(ti as int) > 0 ==> kids@.len() >= 1,
                    pcur == self.players@[self.spec_current_player()],
                    kids@.len() == self.factory_branches(fi as int) + State::color_branches(
                        pcur,
                        factory,
                        ti as int,
                    ),
                    forall|i: int|
                        0 <= i < kids@.len() ==> self.spec_child_of(#[trigger] kids@[i]),
                    forall|fj: int, t: Tile, row: int|
                        #![trigger self.factories@[fj].spec_count(t), pcur.accepts(t, row)]
                        (0 <= fj < fi && self.factories@[fj].spec_count(t) > 0 && 0 <= row < 5
                            && pcur.accepts(t, row) && self.factories@[fj].spec_count(t)
                            < self.factories_total() + self.center.total()) ==> exists|i: int|
                            0 <= i < kids@.len() && self.spec_factory_draft_child(
                                #[trigger] kids@[i],
                                fj,
                                t,
                                row,
                            ),
                    forall|t: Tile, row: int|
                        #![trigger factory.spec_count(t), pcur.accepts(t, row)]
                        (tile_index(t) < ti && factory.spec_count(t) > 0 && 0 <= row < 5
                            && pcur.accepts(t, row) && factory.spec_count(t)
                            < self.factories_total() + self.center.total()) ==> exists|i: int|
                            0 <= i < kids@.len() && self.spec_factory_draft_child(
                                #[trigger] kids@[i],
                                fi as int,
                                t,
                                row,
                            ),
                    forall|fj: int, t: Tile, row: int|
                        #![trigger self.factories@[fj].spec_count(t), pcur.accepts(t, row)]
                        (0 <= fj < fi && self.factories@[fj].spec_count(t) > 0 && 0 <= row < 5
                            && pcur.accepts(t, row) && self.factories@[fj].spec_count(t)
                            == self.factories_total() + self.center.total()) ==> exists|i: int|
                            0 <= i < kids@.len() && self.spec_staged_redeal_child(
                                #[trigger] kids@[i],
                                self.factories@.len() - 1,
                                t,
                                self.factories@[fj].spec_count(t),
                                row,
                            ),
                    forall|t: Tile, row: int|
                        #![trigger factory.spec_count(t), pcur.accepts(t, row)]
                        (tile_index(t) < ti && factory.spec_count(t) > 0 && 0 <= row < 5
                            && pcur.accepts(t, row) && factory.spec_count(t)
                            == self.factories_total() + self.center.total()) ==> exists|i: int|
                            0 <= i < kids@.len() && self.spec_staged_redeal_child(
                                #[trigger] kids@[i],
                                self.factories@.len() - 1,
                                t,
                                factory.spec_count(t),
                                row,
                            ),
            {
                let tile = tile_of(ti);
                let mut fac2 = factory;
                let cnt = fac2.drain(tile);
                if cnt > 0 {
                    let mut st = base.duplicate();
                    let ghost st0 = st;
                    proof {
                        base.lemma_players_bounds(base.players@.len() as int, 0);
                        base.lemma_factories_bounds(base.factories@.len() as int, 0);
                    }
                    st.center.extend(fac2);
                    proof {
                        st0.lemma_factories_parts(st, st0.factories@.len() as int);
                        st0.lemma_players_parts(st, st0.players@.len() as int);
                        assert(st.total() == 100 - cnt);
                    }
                    let ghost kids_before = kids@;
                    let ghost places_snap: Seq<State>;
                    let mut places = st.place_all(tile, cnt, rng);
                    proof {
                        places_snap = places@;
                        assert(st.spec_current_player() == self.spec_current_player());
                        assert(st.players@[st.spec_current_player()] == pcur);
                        assert(places@.len() == pcur.placements_of(tile));
                    }
                    kids.append(&mut places);
                    proof {
                        // witnesses recorded so far keep their indexes
                        assert forall|i: int| 0 <= i < kids_before.len() implies kids@[i]
                            == kids_before[i] by {
                        }
                        assert(st.factories_total() == base.factories_total()) by {
                            base.lemma_factories_parts(st0, base.factories@.len() as int);
                            st0.lemma_factories_parts(st, st0.factories@.len() as int);
                        }
                        // every appended successor is one of this factory's drafts
                        assert forall|j: int|
                            0 <= j < places_snap.len() implies self.spec_factory_child(
                            places_snap[j],
                            fi as int,
                            tile,
                        ) by {
                            self.lemma_lift_factory(st, fi as int, tile, cnt as int, places_snap[j]);
                        }
                        assert forall|i: int| 0 <= i < kids@.len() implies self.spec_child_of(
                            #[trigger] kids@[i],
                        ) by {
                            if i < kids_before.len() {
                                assert(kids@[i] == kids_before[i]);
                                assert(self.spec_child_of(kids_before[i]));
                            } else {
                                reveal(State::spec_child_of);
                                let j = i - kids_before.len();
                                assert(kids@[i] == places_snap[j]);
                                assert(self.factories@[fi as int].spec_count(tile) == cnt);
                                assert(self.spec_factory_child(kids@[i], fi as int, tile));
                            }
                        }
                        if cnt < self.factories_total() + self.center.total() {
                            // the draft leaves tiles pending, so no re-deal ran
                            reveal(State::spec_staged_child);
                            reveal(State::spec_factory_draft_child);
                            assert(!st.spec_is_empty());
                            assert forall|row: int|
                                0 <= row < 5 && pcur.accepts(tile, row) implies exists|i: int|
                                0 <= i < kids@.len() && self.spec_factory_draft_child(
                                    #[trigger] kids@[i],
                                    fi as int,
                                    tile,
                                    row,
                                ) by {
                                assert(st.players@[st.spec_current_player()].accepts(tile, row));
                                let j = choose|j: int|
                                    0 <= j < places_snap.len() && st.spec_staged_child(
                                        places_snap[j],
                                        tile,
                                        cnt as int,
                                        row,
                                    );
                                let i = kids_before.len() + j;
                                assert(kids@[i] == places_snap[j]);
                                assert(st.spec_player_staged(
                                    places_snap[j],
                                    tile,
                                    cnt as int,
                                    row,
                                ));
                                assert(self.spec_player_staged(
                                    places_snap[j],
                                    tile,
                                    cnt as int,
                                    row,
                                ));
                                assert(self.spec_factory_draft_child(
                                    kids@[i],
                                    fi as int,
                                    tile,
                                    row,
                                ));
                            }
                        } else {
                            // the draft ends the round: every accepting row is
                            // still represented, through round-end processing
                            st.lemma_factories_bounds(st.factories@.len() as int, 0);
                            assert(st.spec_is_empty());
                            assert forall|row: int|
                                0 <= row < 5 && pcur.accepts(tile, row) implies exists|i: int|
                                0 <= i < kids@.len() && self.spec_staged_redeal_child(
                                    #[trigger] kids@[i],
                                    self.factories@.len() - 1,
                                    tile,
                                    cnt as int,
                                    row,
                                ) by {
                                assert(st.players@[st.spec_current_player()].accepts(tile, row));
                                let j = choose|j: int|
                                    0 <= j < places_snap.len() && st.spec_staged_redeal_child(
                                        places_snap[j],
                                        st.factories@.len() as int,
                                        tile,
                                        cnt as int,
                                        row,
                                    );
                                self.lemma_lift_redeal(
                                    st,
                                    tile,
                                    cnt as int,
                                    row,
                                    st.factories@.len() as int,
                                    places_snap[j],
                                );
                                let i = kids_before.len() + j;
                                assert(kids@[i] == places_snap[j]);
                                assert(st.factories@.len() as int == self.factories@.len() - 1);
                            }
                        }
                    }
                }
                proof {
                    assert(factory.total_upto(ti as int + 1) == factory.total_upto(ti as int)
                        + factory.spec_count(spec_tile_of(ti as int)));
                    assert(State::color_branches(pcur, factory, ti as int + 1)
                        == State::color_branches(pcur, factory, ti as int) + (
                    if factory.spec_count(spec_tile_of(ti as int)) > 0 {
                        pcur.placements_of(spec_tile_of(ti as int))
                    } else {
                        0int
                    }));
                    assert forall|t: Tile| tile_index(t) < ti + 1 implies tile_index(t) < ti || t
                        == tile by {
                    }
                }
            }
            proof {
                assert(self.factories_upto(fi as int + 1) == self.factories_upto(fi as int)
                    + self.factories@[fi as int].total());
                assert(self.factory_branches(fi as int + 1) == self.factory_branches(fi as int)
                    + State::color_branches(
                    self.players@[self.spec_current_player()],
                    self.factories@[fi as int],
                    5,
                ));
            }
        }
        let ghost center0 = self.center;
        proof {
            center0.lemma_total_upto();
        }
        for ti in 0..5usize
            invariant
                self.inv(),
                forall|i: int| 0 <= i < kids@.len() ==> (#[trigger] kids@[i]).inv(),
                forall|i: int|
                    0 <= i < kids@.len() ==> (#[trigger] kids@[i]).players@.len()
                        == self.players@.len(),
                forall|i: int|
                    0 <= i < kids@.len() ==> (#[trigger] kids@[i]).moves == State::spec_next_move(
                        self.moves,
                    ),
                self.factories_total() > 0 ==> kids@.len() >= 1,
                self.center.total_upto(ti as int) > 0 ==> kids@.len() >= 1,
                pcur == self.players@[self.spec_current_player()],
                kids@.len() == self.factory_branches(self.factories@.len() as int)
                    + State::color_branches(pcur, self.center, ti as int),
                forall|i: int| 0 <= i < kids@.len() ==> self.spec_child_of(#[trigger] kids@[i]),
                forall|fj: int, t: Tile, row: int|
                    #![trigger self.factories@[fj].spec_count(t), pcur.accepts(t, row)]
                    (0 <= fj < self.factories@.len() && self.factories@[fj].spec_count(t) > 0 && 0
                        <= row < 5 && pcur.accepts(t, row) && self.factories@[fj].spec_count(t)
                        < self.factories_total() + self.center.total()) ==> exists|i: int|
                        0 <= i < kids@.len() && self.spec_factory_draft_child(
                            #[trigger] kids@[i],
                            fj,
                            t,
                            row,
                        ),
                forall|t: Tile, row: int|
                    #![trigger self.center.spec_count(t), pcur.accepts(t, row)]
                    (tile_index(t) < ti && self.center.spec_count(t) > 0 && 0 <= row < 5
                        && pcur.accepts(t, row) && self.center.spec_count(t)
                        < self.factories_total() + self.center.total()) ==> exists|i: int|
                        0 <= i < kids@.len() && self.spec_center_draft_child(
                            #[trigger] kids@[i],
                            t,
                            row,
                        ),
                forall|fj: int, t: Tile, row: int|
                    #![trigger self.factories@[fj].spec_count(t), pcur.accepts(t, row)]
                    (0 <= fj < self.factories@.len() && self.factories@[fj].spec_count(t) > 0 && 0
                        <= row < 5 && pcur.accepts(t, row) && self.factories@[fj].spec_count(t)
                        == self.factories_total() + self.center.total()) ==> exists|i: int|
                        0 <= i < kids@.len() && self.spec_staged_redeal_child(
                            #[trigger] kids@[i],
                            self.factories@.len() - 1,
                            t,
                            self.factories@[fj].spec_count(t),
                            row,
                        ),
                forall|t: Tile, row: int|
                    #![trigger self.center.spec_count(t), pcur.accepts(t, row)]
                    (tile_index(t) < ti && self.center.spec_count(t) > 0 && 0 <= row < 5
                        && pcur.accepts(t, row) && self.center.spec_count(t)
                        == self.factories_total() + self.center.total()) ==> exists|i: int|
                        0 <= i < kids@.len() && self.spec_staged_redeal_child(
                            #[trigger] kids@[i],
                            self.factories@.len() as int,
                            t,
                            self.center.spec_count(t),
                            row,
                        ),
        {
            let tile = tile_of(ti);
            let mut st = self.duplicate();
            let ghost st0 = st;
            let cnt = st.center.drain(tile);
            if cnt > 0 {
                proof {
                    self.lemma_factories_parts(st0, self.factories@.len() as int);
                    st0.lemma_factories_parts(st, st0.factories@.len() as int);
                    st0.lemma_players_parts(st, st0.players@.len() as int);
                    assert(st.total() == 100 - cnt);
                }
                let ghost kids_before = kids@;
                let ghost places_snap: Seq<State>;
                let mut places = st.place_all(tile, cnt, rng);
                proof {
                    places_snap = places@;
                    assert(st.spec_current_player() == self.spec_current_player());
                    assert(st.players@[st.spec_current_player()] == pcur);
                    assert(places@.len() == pcur.placements_of(tile));
                }
                kids.append(&mut places);
                proof {
                    assert forall|i: int| 0 <= i < kids_before.len() implies kids@[i]
                        == kids_before[i] by {
                    }
                    // every appended successor is one of this center draft's
                    assert forall|j: int|
                        0 <= j < places_snap.len() implies self.spec_center_child(
                        places_snap[j],
                        tile,
                    ) by {
                        self.lemma_lift_center(st, tile, cnt as int, places_snap[j]);
                    }
                    assert forall|i: int| 0 <= i < kids@.len() implies self.spec_child_of(
                        #[trigger] kids@[i],
                    ) by {
                        if i < kids_before.len() {
                            assert(kids@[i] == kids_before[i]);
                            assert(self.spec_child_of(kids_before[i]));
                        } else {
                            reveal(State::spec_child_of);
                            let j = i - kids_before.len();
                            assert(kids@[i] == places_snap[j]);
                            assert(self.center.spec_count(tile) == cnt);
                            assert(self.spec_center_child(kids@[i], tile));
                        }
                    }
                    if cnt < self.factories_total() + self.center.total() {
                        // the draft leaves tiles pending, so no re-deal ran
                        reveal(State::spec_staged_child);
                        reveal(State::spec_center_draft_child);
                        assert(!st.spec_is_empty());
                        assert forall|row: int|
                            0 <= row < 5 && pcur.accepts(tile, row) implies exists|i: int|
                            0 <= i < kids@.len() && self.spec_center_draft_child(
                                #[trigger] kids@[i],
                                tile,
                                row,
                            ) by {
                            assert(st.players@[st.spec_current_player()].accepts(tile, row));
                            let j = choose|j: int|
                                0 <= j < places_snap.len() && st.spec_staged_child(
                                    places_snap[j],
                                    tile,
                                    cnt as int,
                                    row,
                                );
                            let i = kids_before.len() + j;
                            assert(kids@[i] == places_snap[j]);
                            assert(st.spec_player_staged(places_snap[j], tile, cnt as int, row));
                            assert(self.spec_player_staged(places_snap[j], tile, cnt as int, row));
                            assert(self.spec_center_draft_child(kids@[i], tile, row));
                        }
                    } else {
                        // the draft ends the round: every accepting row is
                        // still represented, through round-end processing
                        st.lemma_factories_bounds(st.factories@.len() as int, 0);
                        assert(st.spec_is_empty());
                        assert forall|row: int|
                            0 <= row < 5 && pcur.accepts(tile, row) implies exists|i: int|
                            0 <= i < kids@.len() && self.spec_staged_redeal_child(
                                #[trigger] kids@[i],
                                self.factories@.len() as int,
                                tile,
                                cnt as int,
                                row,
                            ) by {
                            assert(st.players@[st.spec_current_player()].accepts(tile, row));
                            let j = choose|j: int|
                                0 <= j < places_snap.len() && st.spec_staged_redeal_child(
                                    places_snap[j],
                                    st.factories@.len() as int,
                                    tile,
                                    cnt as int,
                                    row,
                                );
                            self.lemma_lift_redeal(
                                st,
                                tile,
                                cnt as int,
                                row,
                                st.factories@.len() as int,
                                places_snap[j],
                            );
                            let i = kids_before.len() + j;
                            assert(kids@[i] == places_snap[j]);
                            assert(st.factories@.len() as int == self.factories@.len() as int);
                        }
                    }
                }
            }
            proof {
                assert(self.center.total_upto(ti as int + 1) == self.center.total_upto(ti as int)
                    + self.center.spec_count(crate::tile::spec_tile_of(ti as int)));
                assert(State::color_branches(pcur, self.center, ti as int + 1)
                    == State::color_branches(pcur, self.center, ti as int) + (
                if self.center.spec_count(crate::tile::spec_tile_of(ti as int)) > 0 {
                    pcur.placements_of(crate::tile::spec_tile_of(ti as int))
                } else {
                    0int
                }));
            }
        }
        proof {
            self.lemma_factories_bounds(self.factories@.len() as int, 0);
            self.center.lemma_total_upto();
        }
        kids
    }

    /// The player to move.
    pub fn current_player(&self) -> (p: usize)
        requires
            self.players@.len() >= 1,
        ensures
            p == self.spec_current_player(),
            p < self.players@.len(),
    {
        self.moves % self.players.len()
    }

    /// Whether any player has completed a full wall row.
    pub fn is_game_over(&self) -> (r: bool)
        ensures
            r == self.spec_game_over(),
    {
        let plen = self.players.len();
        for p in 0..plen
            invariant
                plen == self.players@.len(),
                forall|q: int, row: int|
                    0 <= q < p && 0 <= row < 5 ==> !self.players@[q].wall.row_full(row),
        {
            let wall = &self.players[p].wall;
            for row in 0..5usize
                invariant
                    plen == self.players@.len(),
                    p < plen,
                    wall == &self.players@[p as int].wall,
                    forall|q: int, rr: int|
                        0 <= q < p && 0 <= rr < 5 ==> !self.players@[q].wall.row_full(rr),
                    forall|rr: int| 0 <= rr < row ==> !self.players@[p as int].wall.row_full(rr),
            {
                let full = wall.rows[row][0] && wall.rows[row][1] && wall.rows[row][2]
                    && wall.rows[row][3] && wall.rows[row][4];
                proof {
                    wall.lemma_row_full_cells(row as int);
                }
                if full {
                    return true;
                }
            }
        }
        false
    }

    /// The winning score: defined once the game is over, and then the
    /// maximum point total among the players. (The base design reports the
    /// winning score, not the winning player's index.)
    pub fn winner(&self) -> (r: Option<usize>)
        ensures
            r == self.spec_winner(),
            r is Some <==> self.spec_game_over(),
            r matches Some(v) ==> (exists|p: int|
                0 <= p < self.players@.len() && self.players@[p].points == v) && (forall|p: int|
                0 <= p < self.players@.len() ==> self.players@[p].points <= v),
    {
        if !self.is_game_over() {
            return None;
        }
        let plen = self.players.len();
        let mut best: usize = self.players[0].points;
        for p in 1..plen
            invariant
                plen == self.players@.len(),
                plen >= 1,
                best == self.max_points_upto(p as int),
                exists|q: int| 0 <= q < p && self.players@[q].points == best,
                forall|q: int| 0 <= q < p ==> self.players@[q].points <= best,
        {
            if self.players[p].points > best {
                best = self.players[p].points;
            }
        }
        Some(best)
    }
}



/// Conservation law: every state that satisfies the invariant — the fresh
/// game, and every state produced from one by move generation, dealing or
/// round-end processing, all of which preserve the invariant — holds exactly
/// 100 tiles across bag, factories, center, tray and the players' rows,
/// walls and discards.
pub proof fn lemma_conservation(s: State)
    requires
        s.inv(),
    ensures
        s.total() == 100,
{
}

/// Row-capacity law: in every state that satisfies the invariant, no
/// player's staging row holds more than its capacity of `row index + 1`
/// tiles.
pub proof fn lemma_row_capacity(s: State, p: int, i: int)
    requires
        s.inv(),
        0 <= p < s.players@.len(),
        0 <= i < 5,
    ensures
        s.players@[p].row_fill(i) <= i + 1,
{
    assert(s.players@[p].wf());
    assert(s.players@[p].row_ok(i));
}

/// The engine state is a conforming game for the generic search: every
/// successor it enumerates is an immediately playable position, because
/// move generation resolves chance eagerly (re-dealing inside `children`),
/// so a chance node is simply a state that resolves to itself.
impl DeterministicGameState for State {
    type Stochastic = State;

    open spec fn inv(&self) -> bool {
        State::inv(*self)
    }

    open spec fn chance_inv(chance: &State) -> bool {
        State::inv(*chance)
    }

    open spec fn has_move(&self) -> bool {
        !self.spec_is_empty()
    }

    open spec fn player_count(&self) -> int {
        self.players@.len() as int
    }

    open spec fn spec_current_player(&self) -> int {
        State::spec_current_player(*self)
    }

    open spec fn spec_winner(&self) -> Option<usize> {
        State::spec_winner(*self)
    }

    open spec fn successor_count(&self) -> int {
        self.branch_count()
    }

    open spec fn all_playable(&self) -> bool {
        true
    }

    open spec fn is_successor(&self, child: &State) -> bool {
        &&& child.inv()
        &&& child.players@.len() == self.players@.len()
        &&& child.moves == State::spec_next_move(self.moves)
        &&& self.spec_child_of(*child)
    }

    fn duplicate(&self) -> (r: State) {
        let r = State::duplicate(self);
        proof {
            self.lemma_winner_parts(r);
            r.lemma_factories_parts(*self, r.factories@.len() as int);
            r.lemma_branch_count_parts(*self);
        }
        r
    }

    fn current_player(&self) -> (p: usize) {
        State::current_player(self)
    }

    fn children(&self, rng: &mut RandomSource) -> (r: Vec<GameState<State, State>>) {
        let mut kids = State::children(self, rng);
        let ghost n_kids = kids@.len();
        let mut out: Vec<GameState<State, State>> = Vec::new();
        while kids.len() > 0
            invariant
                n_kids == self.branch_count(),
                out@.len() + kids@.len() == n_kids,
                forall|i: int|
                    0 <= i < kids@.len() ==> (#[trigger] kids@[i]).inv() && kids@[i].players@.len()
                        == self.players@.len() && kids@[i].moves == State::spec_next_move(
                        self.moves,
                    ) && self.spec_child_of(kids@[i]),
                forall|i: int| 0 <= i < out@.len() ==> (#[trigger] out@[i]) is Deterministic,
                forall|i: int|
                    0 <= i < out@.len() ==> ((#[trigger] out@[i]) matches GameState::Deterministic(
                        d,
                    ) ==> d.inv() && DeterministicGameState::is_successor(self, &d)),
            decreases kids.len(),
        {
            let st = kids.remove(0);
            out.push(GameState::Deterministic(st));
        }
        proof {
            if !self.spec_is_empty() {
                assert(out@[0] is Deterministic);
            }
        }
        out
    }

    fn winner(&self) -> (r: Option<usize>) {
        State::winner(self)
    }

    fn sample_outcomes(chance: &State, _rng: &mut RandomSource, _samples: usize) -> (r: Vec<
        (u32, GameState<State, State>),
    >) {
        let mut v: Vec<(u32, GameState<State, State>)> = Vec::new();
        v.push((1u32, GameState::Deterministic(State::duplicate(chance))));
        v
    }
}

/// The raw point count of one player, clamped to the representable score
/// range.
pub open spec fn spec_point_score(state: &State, player: usize) -> i32 {
    if state.players@[player as int].points > i32::MAX {
        i32::MAX
    } else {
        state.players@[player as int].points as i32
    }
}

/// Reads one player's point total, clamped to the representable score
/// range.
pub fn point_score(state: &State, player: usize) -> (r: i32)
    requires
        (player as int) < state.players@.len(),
    ensures
        r == spec_point_score(state, player),
{
    let pts = state.players[player].points;
    if pts > i32::MAX as usize {
        i32::MAX
    } else {
        pts as i32
    }
}

/// A state can evaluate states of its own game: the score of a state from a
/// player's perspective is simply that player's current point total.
impl Evaluation<State> for State {
    open spec fn spec_evaulate(&self, state: &State, player: usize) -> i32 {
        spec_point_score(state, player)
    }

    fn evaulate(&self, state: &State, player: usize) -> (r: i32) {
        point_score(state, player)
    }

    /// This evaluator keeps no record.
    fn update(&mut self, _state: &State, _value: i32)
        ensures
            *final(self) == *old(self),
    {
    }

    /// This evaluator never reorders the successors: the vector is left
    /// exactly as it was.
    fn heuristic(&self, states: &mut Vec<GameState<State, State>>)
        ensures
            final(states)@ == old(states)@,
    {
    }
}

/// A basic evaluator: it scores a state by the player's raw point count and
/// keeps a log of the values it is asked to record.
pub struct Fish {
    pub cache: Vec<(State, i32)>,
}

impl Fish {
    /// A fresh evaluator with an empty record.
    pub fn new() -> (f: Fish)
        ensures
            f.cache@.len() == 0,
    {
        Fish { cache: Vec::new() }
    }
}

impl Evaluation<State> for Fish {
    open spec fn spec_evaulate(&self, state: &State, player: usize) -> i32 {
        spec_point_score(state, player)
    }

    fn evaulate(&self, state: &State, player: usize) -> (r: i32) {
        point_score(state, player)
    }

    /// Appends a copy of the state with the value to the record; earlier
    /// entries stay as they are. (The record accumulates: recording the same
    /// state twice keeps both entries, where a map would overwrite.)
    fn update(&mut self, state: &State, value: i32)
        ensures
            final(self).cache@.len() == old(self).cache@.len() + 1,
            forall|j: int|
                0 <= j < old(self).cache@.len() ==> final(self).cache@[j] == old(self).cache@[j],
            ({
                let e = final(self).cache@[old(self).cache@.len() as int];
                &&& e.1 == value
                &&& e.0.bag == state.bag
                &&& e.0.factories@ == state.factories@
                &&& e.0.center == state.center
                &&& e.0.tray == state.tray
                &&& e.0.players@ == state.players@
                &&& e.0.moves == state.moves
            }),
    {
        self.cache.push((State::duplicate(state), value));
    }

    /// This evaluator never reorders the successors: the vector is left
    /// exactly as it was. (A cache-guided ordering is a possible refinement;
    /// the identity order is the one implemented.)
    fn heuristic(&self, states: &mut Vec<GameState<State, State>>)
        ensures
            final(states)@ == old(states)@,
    {
    }
}

} // verus!
