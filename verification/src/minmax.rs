//! Generic adversarial search: depth-bounded minimax with alpha-beta
//! pruning over any conforming game state, with a chance-node (stochastic)
//! extension whose values are weighted averages over sampled outcomes.

use vstd::prelude::*;

use crate::rng::RandomSource;

verus! {

broadcast use vstd::seq_lib::group_to_multiset_ensures;

/// How many outcomes a chance node samples.
const SAMPLE_COUNT: usize = 32;

/// A game state as the search sees it: either a concrete position that a
/// player moves from, or a pending chance event still to be resolved.
#[derive(Clone)]
pub enum GameState<D, S> {
    Deterministic(D),
    Stochastic(S),
}

/// The validity invariant of a search node: the position's invariant for a
/// concrete position, the chance invariant for a pending chance event.
pub open spec fn node_inv<D: DeterministicGameState>(gs: &GameState<D, D::Stochastic>) -> bool {
    match gs {
        GameState::Deterministic(d) => d.inv(),
        GameState::Stochastic(c) => D::chance_inv(c),
    }
}

/// The measure that makes the mutual recursion of `minmax` and
/// `chance_value` terminate: resolving a chance node strictly lowers the
/// rank at equal depth.
pub open spec fn rank_of<D, S>(state: &GameState<D, S>) -> int {
    match state {
        GameState::Deterministic(_) => 0,
        GameState::Stochastic(_) => 2,
    }
}

/// A concrete game position: it knows whose turn it is, enumerates its
/// successors (concrete positions or pending chance events), and reports a
/// winner once the game is decided.
pub trait DeterministicGameState: Sized {
    /// The type of this game's pending chance events.
    type Stochastic;

    /// The position's validity invariant.
    spec fn inv(&self) -> bool;

    /// The validity invariant of a pending chance event.
    spec fn chance_inv(chance: &Self::Stochastic) -> bool;

    /// Whether a drafting move is pending, so that successors exist.
    spec fn has_move(&self) -> bool;

    /// The number of players.
    spec fn player_count(&self) -> int;

    /// The player to move.
    spec fn spec_current_player(&self) -> int;

    /// The winning score, once the game is decided.
    spec fn spec_winner(&self) -> Option<usize>;

    /// The number of successors move generation yields from this position.
    spec fn successor_count(&self) -> int;

    /// Whether every successor this position yields is an immediately
    /// playable position (no pending chance events among the successors).
    spec fn all_playable(&self) -> bool;

    /// The successor relation: what holds of every playable successor that
    /// move generation yields.
    spec fn is_successor(&self, child: &Self) -> bool;

    /// An independent copy with the same observable game content.
    fn duplicate(&self) -> (r: Self)
        ensures
            r.inv() == self.inv(),
            r.has_move() == self.has_move(),
            r.player_count() == self.player_count(),
            r.spec_current_player() == self.spec_current_player(),
            r.spec_winner() == self.spec_winner(),
            r.successor_count() == self.successor_count(),
            r.all_playable() == self.all_playable(),
    ;

    /// The player to move.
    fn current_player(&self) -> (p: usize)
        requires
            self.inv(),
        ensures
            p as int == self.spec_current_player(),
            0 <= (p as int) < self.player_count(),
    ;

    /// Every legal successor. A position with a pending move yields at
    /// least one successor, at least one of them an immediately playable
    /// position.
    fn children(&self, rng: &mut RandomSource) -> (r: Vec<GameState<Self, Self::Stochastic>>)
        requires
            self.inv(),
        ensures
            r@.len() == self.successor_count(),
            forall|i: int|
                0 <= i < r@.len() ==> ((#[trigger] r@[i]) matches GameState::Deterministic(d)
                    ==> d.inv() && self.is_successor(&d)),
            forall|i: int|
                0 <= i < r@.len() ==> ((#[trigger] r@[i]) matches GameState::Stochastic(c)
                    ==> Self::chance_inv(&c)),
            self.all_playable() ==> forall|i: int|
                0 <= i < r@.len() ==> (#[trigger] r@[i]) is Deterministic,
            self.has_move() ==> r@.len() >= 1,
            self.has_move() ==> exists|i: int|
                0 <= i < r@.len() && (#[trigger] r@[i]) is Deterministic,
    ;

    /// The winning score, once the game is decided.
    fn winner(&self) -> (r: Option<usize>)
        requires
            self.inv(),
        ensures
            r == self.spec_winner(),
    ;

    /// Samples up to `samples` weighted outcomes of a pending chance event:
    /// at least one comes back, every weight is positive, and every outcome
    /// is a valid, resolved position.
    fn sample_outcomes(chance: &Self::Stochastic, rng: &mut RandomSource, samples: usize) -> (r:
        Vec<(u32, GameState<Self, Self::Stochastic>)>)
        requires
            Self::chance_inv(chance),
            samples >= 1,
        ensures
            1 <= r@.len() <= samples,
            forall|i: int| 0 <= i < r@.len() ==> (#[trigger] r@[i]).0 >= 1,
            forall|i: int| 0 <= i < r@.len() ==> (#[trigger] r@[i]).1 is Deterministic,
            forall|i: int|
                0 <= i < r@.len() ==> ((#[trigger] r@[i]).1 matches GameState::Deterministic(d)
                    ==> d.inv()),
    ;
}

/// The evaluation capability the search consumes: it scores a position from
/// one player's perspective, may record computed values, and may reorder
/// (but not otherwise change) candidate successors.
pub trait Evaluation<S: DeterministicGameState> {
    /// The score the evaluator assigns.
    spec fn spec_evaulate(&self, state: &S, player: usize) -> i32;

    /// Scores a position from `player`'s perspective.
    fn evaulate(&self, state: &S, player: usize) -> (r: i32)
        requires
            state.inv(),
            (player as int) < state.player_count(),
        ensures
            r == self.spec_evaulate(state, player),
    ;

    /// Records a computed value for a state (a caching hook).
    fn update(&mut self, state: &S, value: i32);

    /// May reorder the candidate successors as a move-ordering heuristic;
    /// the set of successors is unchanged.
    fn heuristic(&self, states: &mut Vec<GameState<S, S::Stochastic>>)
        ensures
            final(states)@.to_multiset() == old(states)@.to_multiset(),
    ;
}

/// The sum of the weights of the first `k` sampled pairs.
pub open spec fn sum_weights(pairs: Seq<(u32, i32)>, k: int) -> int
    decreases k,
{
    if k <= 0 {
        0
    } else {
        sum_weights(pairs, k - 1) + pairs[k - 1].0
    }
}

/// The weighted sum of the values of the first `k` sampled pairs.
pub open spec fn sum_products(pairs: Seq<(u32, i32)>, k: int) -> int
    decreases k,
{
    if k <= 0 {
        0
    } else {
        sum_products(pairs, k - 1) + pairs[k - 1].0 * pairs[k - 1].1
    }
}

/// The ratio `s / w` rounded to the nearest integer, halves away from zero.
pub open spec fn spec_rounded_ratio(s: int, w: int) -> int {
    if s >= 0 {
        (s + w / 2) / w
    } else {
        -((-s + w / 2) / w)
    }
}

/// A value clamped to the representable score range.
pub open spec fn spec_clamp_score(x: int) -> int {
    if x > i32::MAX {
        i32::MAX as int
    } else if x < i32::MIN {
        i32::MIN as int
    } else {
        x
    }
}

/// The weighted mean of the sampled values: the weighted sum over the total
/// weight, rounded to the nearest integer and clamped to the representable
/// score range.
pub open spec fn spec_weighted_mean(pairs: Seq<(u32, i32)>) -> int {
    spec_clamp_score(
        spec_rounded_ratio(
            sum_products(pairs, pairs.len() as int),
            sum_weights(pairs, pairs.len() as int),
        ),
    )
}

/// Division by a positive divisor cannot exceed `y` when the dividend lies
/// below `d * (y + 1)`.
proof fn lemma_div_le(x: int, d: int, y: int)
    requires
        d >= 1,
        0 <= x,
        x < d * (y + 1),
    ensures
        x / d <= y,
{
    vstd::arithmetic::div_mod::lemma_fundamental_div_mod(x, d);
    vstd::arithmetic::div_mod::lemma_mod_bound(x, d);
    let q = x / d;
    assert(q <= y) by (nonlinear_arith)
        requires
            d >= 1,
            d * q <= x,
            x < d * (y + 1),
    ;
}

/// Division by a positive divisor reaches `y` when the dividend reaches
/// `d * y`.
proof fn lemma_div_ge(x: int, d: int, y: int)
    requires
        d >= 1,
        0 <= x,
        d * y <= x,
    ensures
        x / d >= y,
{
    vstd::arithmetic::div_mod::lemma_fundamental_div_mod(x, d);
    vstd::arithmetic::div_mod::lemma_mod_bound(x, d);
    let q = x / d;
    assert(q >= y) by (nonlinear_arith)
        requires
            d >= 1,
            d * q > x - d,
            d * y <= x,
    ;
}

/// The weighted mean of sampled values, computed exactly: rounded to the
/// nearest integer (halves away from zero) and clamped to the representable
/// score range. As a convex combination, the result never leaves the range
/// the sampled values span.
pub fn weighted_mean(pairs: &Vec<(u32, i32)>) -> (r: i32)
    requires
        1 <= pairs@.len() <= 32,
        forall|i: int| 0 <= i < pairs@.len() ==> (#[trigger] pairs@[i]).0 >= 1,
    ensures
        r as int == spec_weighted_mean(pairs@),
        exists|i: int| 0 <= i < pairs@.len() && r <= (#[trigger] pairs@[i]).1,
        exists|i: int| 0 <= i < pairs@.len() && r >= (#[trigger] pairs@[i]).1,
{
    let n = pairs.len();
    let mut total: u64 = 0;
    let mut acc: i128 = 0;
    let mut vmax: i32 = pairs[0].1;
    let mut vmin: i32 = pairs[0].1;
    for i in 0..n
        invariant
            n == pairs@.len(),
            1 <= n <= 32,
            forall|j: int| 0 <= j < pairs@.len() ==> (#[trigger] pairs@[j]).0 >= 1,
            total == sum_weights(pairs@, i as int),
            acc == sum_products(pairs@, i as int),
            total >= i,
            total <= i * 0xffff_ffffu64,
            exists|j: int| 0 <= j < pairs@.len() && (#[trigger] pairs@[j]).1 == vmax,
            exists|j: int| 0 <= j < pairs@.len() && (#[trigger] pairs@[j]).1 == vmin,
            vmin <= vmax,
            acc <= total * (vmax as int),
            total * (vmin as int) <= acc,
    {
        let (w, v) = pairs[i];
        if v > vmax {
            proof {
                assert(acc <= total * (v as int)) by (nonlinear_arith)
                    requires
                        acc <= total * (vmax as int),
                        vmax <= v,
                        total >= 0,
                ;
            }
            vmax = v;
        }
        if v < vmin {
            proof {
                assert(total * (v as int) <= acc) by (nonlinear_arith)
                    requires
                        total * (vmin as int) <= acc,
                        v <= vmin,
                        total >= 0,
                ;
            }
            vmin = v;
        }
        proof {
            assert((w * v) as int == (w as int) * (v as int)) by (nonlinear_arith)
                requires
                    true,
            ;
            assert((w as int) * (v as int) <= (w as int) * (vmax as int) && (w as int) * (
            vmin as int) <= (w as int) * (v as int)) by (nonlinear_arith)
                requires
                    1 <= w,
                    vmin <= v <= vmax,
            ;
            assert(acc + (w as int) * (v as int) <= (total + w) * (vmax as int) && (total + w) * (
            vmin as int) <= acc + (w as int) * (v as int)) by (nonlinear_arith)
                requires
                    acc <= total * (vmax as int),
                    total * (vmin as int) <= acc,
                    (w as int) * (v as int) <= (w as int) * (vmax as int),
                    (w as int) * (vmin as int) <= (w as int) * (v as int),
            ;
            assert(-(total * 0x8000_0000u64) <= acc <= total * 0x8000_0000u64) by (nonlinear_arith)
                requires
                    total >= 0,
                    total * (vmin as int) <= acc <= total * (vmax as int),
                    -0x8000_0000 <= (vmin as int),
                    (vmax as int) <= 0x8000_0000,
            ;
            assert(w * v <= w * 0x8000_0000i64 && -(w * 0x8000_0000i64) <= w * v) by (nonlinear_arith)
                requires
                    1 <= w <= 0xffff_ffffu32,
                    -0x8000_0000i64 <= v <= 0x7fff_ffffi64,
            ;
        }
        total = total + w as u64;
        acc = acc + (w as i128) * (v as i128);
    }
    proof {
        assert(total >= 1);
        assert(-(total * 0x8000_0000u64) <= acc <= total * 0x8000_0000u64) by (nonlinear_arith)
            requires
                total >= 0,
                total * (vmin as int) <= acc <= total * (vmax as int),
                -0x8000_0000 <= (vmin as int),
                (vmax as int) <= 0x8000_0000,
        ;
    }
    let negative = acc < 0;
    let magnitude: u128 = if negative {
        (-acc) as u128
    } else {
        acc as u128
    };
    let tw: u128 = total as u128;
    let q: u128 = (magnitude + tw / 2) / tw;
    proof {
        let s = acc as int;
        let w = total as int;
        let x = magnitude as int + w / 2;
        vstd::arithmetic::div_mod::lemma_fundamental_div_mod(w, 2);
        vstd::arithmetic::div_mod::lemma_mod_bound(w, 2);
        assert(w / 2 < w);
        if !negative {
            // the quotient stays within [max(vmin, 0), vmax]
            assert(0 <= (vmax as int) && w * (vmax as int) >= s) by (nonlinear_arith)
                requires
                    w >= 1,
                    s >= 0,
                    s <= w * (vmax as int),
            ;
            assert(x < w * (vmax as int + 1)) by (nonlinear_arith)
                requires
                    s <= w * (vmax as int),
                    x == s + w / 2,
                    w / 2 < w,
            ;
            lemma_div_le(x, w, vmax as int);
            if (vmin as int) >= 0 {
                assert(w * (vmin as int) <= x) by (nonlinear_arith)
                    requires
                        w * (vmin as int) <= s,
                        x >= s,
                ;
                lemma_div_ge(x, w, vmin as int);
            } else {
                lemma_div_ge(x, w, 0);
            }
        } else {
            // the magnitude's quotient stays within [max(-vmax, 0), -vmin]
            assert((vmin as int) < 0 && w * (-(vmin as int)) >= -s) by (nonlinear_arith)
                requires
                    w >= 1,
                    s < 0,
                    w * (vmin as int) <= s,
            ;
            assert(x < w * (-(vmin as int) + 1)) by (nonlinear_arith)
                requires
                    w * (vmin as int) <= s,
                    x == -s + w / 2,
                    w / 2 < w,
            ;
            lemma_div_le(x, w, -(vmin as int));
            if (vmax as int) <= 0 {
                assert(w * (-(vmax as int)) <= x) by (nonlinear_arith)
                    requires
                        s <= w * (vmax as int),
                        x >= -s,
                ;
                lemma_div_ge(x, w, -(vmax as int));
            } else {
                lemma_div_ge(x, w, 0);
            }
        }
    }
    if negative {
        if q > (i32::MAX as u128) + 1 {
            i32::MIN
        } else {
            (-(q as i128)) as i32
        }
    } else {
        if q > i32::MAX as u128 {
            i32::MAX
        } else {
            q as i32
        }
    }
}

/// The value a chance node takes: the exact clamped, rounded weighted mean
/// of a nonempty sample of scores, each of which is the depth-limited
/// minimax value of some valid outcome position at the same depth (chance
/// resolution does not consume search depth).
pub open spec fn chance_node_value<S: DeterministicGameState, E: Evaluation<S>>(
    e: E,
    player: usize,
    depth: nat,
    v: int,
) -> bool
    decreases depth, 2int,
{
    exists|pairs: Seq<(u32, i32)>|
        #![trigger spec_weighted_mean(pairs)]
        {
            &&& 1 <= pairs.len() <= 32
            &&& (forall|i: int| 0 <= i < pairs.len() ==> (#[trigger] pairs[i]).0 >= 1)
            &&& (forall|i: int|
                0 <= i < pairs.len() ==> exists|o: S|
                    #[trigger] o.inv() && is_minmax_value(
                        e,
                        o,
                        player,
                        depth,
                        (#[trigger] pairs[i]).1 as int,
                    ))
            &&& v == spec_weighted_mean(pairs)
            &&& (exists|i: int| 0 <= i < pairs.len() && v <= (#[trigger] pairs[i]).1)
            &&& (exists|i: int| 0 <= i < pairs.len() && v >= (#[trigger] pairs[i]).1)
        }
}

/// The greatest element of a nonempty sequence of values.
pub open spec fn seq_max(s: Seq<int>) -> int
    recommends
        s.len() >= 1,
    decreases s.len(),
{
    if s.len() <= 1 {
        s[0]
    } else if s.last() >= seq_max(s.drop_last()) {
        s.last()
    } else {
        seq_max(s.drop_last())
    }
}

/// The least element of a nonempty sequence of values.
pub open spec fn seq_min(s: Seq<int>) -> int
    recommends
        s.len() >= 1,
    decreases s.len(),
{
    if s.len() <= 1 {
        s[0]
    } else if s.last() <= seq_min(s.drop_last()) {
        s.last()
    } else {
        seq_min(s.drop_last())
    }
}

/// What one visited successor contributes to an interior node's value: the
/// depth-limited minimax value of some playable successor, or — only where
/// the position's successors may include pending chance events — a sampled
/// chance mean.
pub open spec fn successor_value<S: DeterministicGameState, E: Evaluation<S>>(
    e: E,
    s: S,
    player: usize,
    depth: nat,
    v: int,
) -> bool
    decreases depth, 0int,
{
    if depth == 0 {
        false
    } else {
        ||| exists|c: S| #[trigger]
            s.is_successor(&c) && is_minmax_value(e, c, player, (depth - 1) as nat, v)
        ||| (!s.all_playable() && chance_node_value::<S, E>(e, player, (depth - 1) as nat, v))
    }
}

/// The depth-limited minimax value relation: a leaf is the evaluator's
/// score for the player to move; a decided game is the win or loss sentinel
/// for the fixed maximizing player; a position without successors is a loss
/// for the maximizing player (a win at a minimizing node); and an interior
/// node's value is the maximum (at a maximizing node) or minimum (at a
/// minimizing node) over the values of a nonempty set of visited
/// successors. The set of visited successors is existential because
/// successors are chance-dealt and alpha-beta cutoffs stop the visit early.
pub open spec fn is_minmax_value<S: DeterministicGameState, E: Evaluation<S>>(
    e: E,
    s: S,
    player: usize,
    depth: nat,
    v: int,
) -> bool
    decreases depth, 1int,
{
    if depth == 0 {
        v == e.spec_evaulate(&s, (s.spec_current_player() as usize)) as int
    } else if s.spec_winner() is Some {
        v == if s.spec_winner() == Some(player) {
            i32::MAX as int
        } else {
            i32::MIN as int
        }
    } else if s.successor_count() == 0 {
        v == if s.spec_current_player() == player as int {
            i32::MIN as int
        } else {
            i32::MAX as int
        }
    } else {
        exists|vs: Seq<int>|
            #![trigger seq_max(vs)]
            #![trigger seq_min(vs)]
            {
                &&& 1 <= vs.len() <= s.successor_count()
                &&& (forall|i: int|
                    0 <= i < vs.len() ==> successor_value(e, s, player, depth, #[trigger] vs[i]))
                &&& v == if s.spec_current_player() == player as int {
                    seq_max(vs)
                } else {
                    seq_min(vs)
                }
            }
    }
}

/// Depth-limited minimax with alpha-beta pruning. Returns the index of the
/// chosen child (among the successors enumerated at this node) and the
/// node's value. At depth zero the value is the evaluator's score for the
/// player to move; on a decided game it is the saturated win/loss sentinel
/// relative to the fixed maximizing `player`; and every returned value
/// satisfies the `is_minmax_value` recurrence over the successor relation.
/// Ties favor the last equally-good child among those actually visited
/// before any cutoff; the visit order itself is not part of the contract,
/// which is why the recurrence quantifies over the visited set.
pub fn minmax<S: DeterministicGameState, E: Evaluation<S>>(
    state: GameState<S, S::Stochastic>,
    evaluation: &mut E,
    rng: &mut RandomSource,
    player: usize,
    depth: usize,
    alpha: i32,
    beta: i32,
) -> (r: (Option<usize>, i32))
    requires
        node_inv::<S>(&state),
    ensures
        *final(evaluation) == *old(evaluation),
        r.0 is Some ==> depth >= 1 && state is Deterministic,
        state matches GameState::Deterministic(s) ==> {
            &&& depth == 0 ==> r.0 is None && r.1 == old(evaluation).spec_evaulate(
                &s,
                (s.spec_current_player() as usize),
            )
            &&& depth >= 1 ==> (s.spec_winner() matches Some(w) ==> r.0 is None && r.1 == (if w
                == player {
                i32::MAX
            } else {
                i32::MIN
            }))
            &&& (depth >= 1 && s.spec_winner() is None && s.has_move()) ==> r.0 is Some
            &&& r.0 is Some ==> s.spec_winner() is None
            &&& r.0 matches Some(i) ==> (i as int) < s.successor_count()
            &&& (depth >= 1 && s.spec_winner() is None && s.successor_count() == 0) ==> r.0
                is None && r.1 == (if s.spec_current_player() == player as int {
                i32::MIN
            } else {
                i32::MAX
            })
            &&& is_minmax_value(*old(evaluation), s, player, depth as nat, r.1 as int)
        },
        state is Stochastic ==> r.0 is None && chance_node_value::<S, E>(
            *old(evaluation),
            player,
            depth as nat,
            r.1 as int,
        ),
    decreases depth, rank_of(&state),
{
    match state {
        GameState::Deterministic(state) => {
            if depth == 0 {
                let cp = state.current_player();
                let e = evaluation.evaulate(&state, cp);
                return (None, e);
            }
            match state.winner() {
                Some(winner_score) => {
                    return if winner_score == player {
                        (None, i32::MAX)
                    } else {
                        (None, i32::MIN)
                    };
                },
                None => {},
            }
            let cur = state.current_player();
            let mut children = state.children(rng);
            let ghost orig = children@;
            evaluation.heuristic(&mut children);
            proof {
                children@.to_multiset_ensures();
                orig.to_multiset_ensures();
                assert(children@.len() == orig.len());
                assert forall|i: int| 0 <= i < children@.len() implies (node_inv::<S>(
                    &(#[trigger] children@[i]),
                ) && (children@[i] matches GameState::Deterministic(d) ==> state.is_successor(&d))
                    && (state.all_playable() ==> children@[i] is Deterministic)) by {
                    assert(children@.contains(children@[i]));
                    assert(children@.to_multiset().count(children@[i]) > 0);
                    assert(orig.to_multiset().count(children@[i]) > 0);
                    assert(orig.contains(children@[i]));
                    let j = choose|j: int| 0 <= j < orig.len() && orig[j] == children@[i];
                    assert(node_inv::<S>(&orig[j]));
                    assert(orig[j] matches GameState::Deterministic(d) ==> state.is_successor(&d));
                    assert(state.all_playable() ==> orig[j] is Deterministic);
                }
            }
            let total_children = children.len();
            let ghost e0 = *evaluation;
            let ghost mut vals: Seq<int> = Seq::<int>::empty();
            if cur == player {
                let mut best_value = i32::MIN;
                let mut best_index: Option<usize> = None;
                let mut cur_alpha = alpha;
                let mut index: usize = 0;
                while children.len() > 0
                    invariant_except_break
                        best_index is Some <==> index > 0,
                        index == 0 ==> best_value == i32::MIN,
                        index + children@.len() == total_children,
                        vals.len() == index,
                    invariant
                        depth >= 1,
                        e0 == *old(evaluation),
                        cur == player,
                        state.spec_current_player() == player as int,
                        best_index matches Some(bi) ==> bi < total_children,
                        forall|i: int|
                            0 <= i < children@.len() ==> node_inv::<S>(&(#[trigger] children@[i])),
                        forall|i: int|
                            0 <= i < children@.len() ==> ((#[trigger] children@[i]) matches GameState::Deterministic(d)
                                ==> state.is_successor(&d)),
                        state.all_playable() ==> forall|i: int|
                            0 <= i < children@.len() ==> (#[trigger] children@[i]) is Deterministic,
                        forall|i: int|
                            0 <= i < vals.len() ==> successor_value(
                                e0,
                                state,
                                player,
                                depth as nat,
                                #[trigger] vals[i],
                            ),
                        index > 0 ==> best_value as int == seq_max(vals),
                        *evaluation == *old(evaluation),
                    ensures
                        total_children > 0 ==> best_index is Some,
                        total_children == 0 ==> best_index is None && best_value == i32::MIN,
                        best_index matches Some(bi) ==> bi < total_children,
                        total_children > 0 ==> 1 <= vals.len() <= total_children
                            && best_value as int == seq_max(vals) && (forall|i: int|
                            0 <= i < vals.len() ==> successor_value(
                                e0,
                                state,
                                player,
                                depth as nat,
                                #[trigger] vals[i],
                            )),
                        *evaluation == *old(evaluation),
                    decreases children.len(),
                {
                    let child = children.remove(0);
                    let ghost child_g = child;
                    let result = minmax(child, evaluation, rng, player, depth - 1, cur_alpha, beta);
                    let new_value = result.1;
                    proof {
                        let ghost prev_vals = vals;
                        match child_g {
                            GameState::Deterministic(d) => {
                                assert(state.is_successor(&d));
                                assert(is_minmax_value(
                                    e0,
                                    d,
                                    player,
                                    (depth - 1) as nat,
                                    new_value as int,
                                ));
                            },
                            GameState::Stochastic(c) => {
                                assert(!state.all_playable());
                                assert(chance_node_value::<S, E>(
                                    e0,
                                    player,
                                    (depth - 1) as nat,
                                    new_value as int,
                                ));
                            },
                        }
                        assert(successor_value(e0, state, player, depth as nat, new_value as int));
                        vals = vals.push(new_value as int);
                        assert(vals.drop_last() =~= prev_vals);
                        assert(vals.last() == new_value as int);
                        if index > 0 {
                            assert(seq_max(vals) == if new_value as int >= seq_max(prev_vals) {
                                new_value as int
                            } else {
                                seq_max(prev_vals)
                            });
                        } else {
                            assert(vals.len() == 1);
                            assert(seq_max(vals) == new_value as int);
                        }
                    }
                    if new_value >= best_value {
                        best_value = new_value;
                        best_index = Some(index);
                    }
                    proof {
                        assert(best_value as int == seq_max(vals));
                    }
                    if best_value > beta {
                        break ;
                    }
                    if best_value > cur_alpha {
                        cur_alpha = best_value;
                    }
                    index = index + 1;
                }
                proof {
                    if total_children == 0 {
                        assert(state.successor_count() == 0);
                        assert(is_minmax_value(
                            e0,
                            state,
                            player,
                            depth as nat,
                            best_value as int,
                        ));
                    } else {
                        assert(seq_max(vals) == best_value as int);
                        assert(is_minmax_value(
                            e0,
                            state,
                            player,
                            depth as nat,
                            best_value as int,
                        ));
                    }
                }
                (best_index, best_value)
            } else {
                let mut best_value = i32::MAX;
                let mut best_index: Option<usize> = None;
                let mut cur_beta = beta;
                let mut index: usize = 0;
                while children.len() > 0
                    invariant_except_break
                        best_index is Some <==> index > 0,
                        index == 0 ==> best_value == i32::MAX,
                        index + children@.len() == total_children,
                        vals.len() == index,
                    invariant
                        depth >= 1,
                        e0 == *old(evaluation),
                        cur != player,
                        state.spec_current_player() != player as int,
                        best_index matches Some(bi) ==> bi < total_children,
                        forall|i: int|
                            0 <= i < children@.len() ==> node_inv::<S>(&(#[trigger] children@[i])),
                        forall|i: int|
                            0 <= i < children@.len() ==> ((#[trigger] children@[i]) matches GameState::Deterministic(d)
                                ==> state.is_successor(&d)),
                        state.all_playable() ==> forall|i: int|
                            0 <= i < children@.len() ==> (#[trigger] children@[i]) is Deterministic,
                        forall|i: int|
                            0 <= i < vals.len() ==> successor_value(
                                e0,
                                state,
                                player,
                                depth as nat,
                                #[trigger] vals[i],
                            ),
                        index > 0 ==> best_value as int == seq_min(vals),
                        *evaluation == *old(evaluation),
                    ensures
                        total_children > 0 ==> best_index is Some,
                        total_children == 0 ==> best_index is None && best_value == i32::MAX,
                        best_index matches Some(bi) ==> bi < total_children,
                        total_children > 0 ==> 1 <= vals.len() <= total_children
                            && best_value as int == seq_min(vals) && (forall|i: int|
                            0 <= i < vals.len() ==> successor_value(
                                e0,
                                state,
                                player,
                                depth as nat,
                                #[trigger] vals[i],
                            )),
                        *evaluation == *old(evaluation),
                    decreases children.len(),
                {
                    let child = children.remove(0);
                    let ghost child_g = child;
                    let result = minmax(child, evaluation, rng, player, depth - 1, alpha, cur_beta);
                    let new_value = result.1;
                    proof {
                        let ghost prev_vals = vals;
                        match child_g {
                            GameState::Deterministic(d) => {
                                assert(state.is_successor(&d));
                                assert(is_minmax_value(
                                    e0,
                                    d,
                                    player,
                                    (depth - 1) as nat,
                                    new_value as int,
                                ));
                            },
                            GameState::Stochastic(c) => {
                                assert(!state.all_playable());
                                assert(chance_node_value::<S, E>(
                                    e0,
                                    player,
                                    (depth - 1) as nat,
                                    new_value as int,
                                ));
                            },
                        }
                        assert(successor_value(e0, state, player, depth as nat, new_value as int));
                        vals = vals.push(new_value as int);
                        assert(vals.drop_last() =~= prev_vals);
                        assert(vals.last() == new_value as int);
                        if index > 0 {
                            assert(seq_min(vals) == if new_value as int <= seq_min(prev_vals) {
                                new_value as int
                            } else {
                                seq_min(prev_vals)
                            });
                        } else {
                            assert(vals.len() == 1);
                            assert(seq_min(vals) == new_value as int);
                        }
                    }
                    if new_value <= best_value {
                        best_value = new_value;
                        best_index = Some(index);
                    }
                    proof {
                        assert(best_value as int == seq_min(vals));
                    }
                    if best_value < alpha {
                        break ;
                    }
                    if best_value < cur_beta {
                        cur_beta = best_value;
                    }
                    index = index + 1;
                }
                proof {
                    if total_children == 0 {
                        assert(state.successor_count() == 0);
                        assert(is_minmax_value(
                            e0,
                            state,
                            player,
                            depth as nat,
                            best_value as int,
                        ));
                    } else {
                        assert(seq_min(vals) == best_value as int);
                        assert(is_minmax_value(
                            e0,
                            state,
                            player,
                            depth as nat,
                            best_value as int,
                        ));
                    }
                }
                (best_index, best_value)
            }
        },
        GameState::Stochastic(chance) => {
            let value = chance_value::<S, E>(&chance, evaluation, rng, player, depth, alpha, beta);
            (None, value)
        },
    }
}

/// The value of a chance node: the weighted mean of the minimax values of
/// the sampled outcomes, rounded to the nearest integer and clamped to the
/// representable score range. The outcomes themselves are chance-dealt, so
/// the contract states what holds of every outcome: the result is the exact
/// weighted mean of some valid sample of scores (and so lies between the
/// least and greatest of them).
fn chance_value<S: DeterministicGameState, E: Evaluation<S>>(
    chance: &S::Stochastic,
    evaluation: &mut E,
    rng: &mut RandomSource,
    player: usize,
    depth: usize,
    alpha: i32,
    beta: i32,
) -> (r: i32)
    requires
        S::chance_inv(chance),
    ensures
        *final(evaluation) == *old(evaluation),
        chance_node_value::<S, E>(*old(evaluation), player, depth as nat, r as int),
    decreases depth, 1int,
{
    let mut samples = S::sample_outcomes(chance, rng, SAMPLE_COUNT);
    let ghost n0 = samples@.len();
    let mut pairs: Vec<(u32, i32)> = Vec::new();
    while samples.len() > 0
        invariant
            pairs@.len() + samples@.len() == n0,
            1 <= n0 <= 32,
            forall|i: int| 0 <= i < samples@.len() ==> (#[trigger] samples@[i]).0 >= 1,
            forall|i: int| 0 <= i < samples@.len() ==> (#[trigger] samples@[i]).1 is Deterministic,
            forall|i: int| 0 <= i < samples@.len() ==> node_inv::<S>(&(#[trigger] samples@[i]).1),
            forall|i: int| 0 <= i < pairs@.len() ==> (#[trigger] pairs@[i]).0 >= 1,
            forall|i: int|
                0 <= i < pairs@.len() ==> exists|o: S|
                    #[trigger] o.inv() && is_minmax_value(
                        *old(evaluation),
                        o,
                        player,
                        depth as nat,
                        (#[trigger] pairs@[i]).1 as int,
                    ),
            *evaluation == *old(evaluation),
        decreases samples.len(),
    {
        let (w, outcome) = samples.remove(0);
        let ghost outcome_g = outcome;
        let result = minmax(outcome, evaluation, rng, player, depth, alpha, beta);
        proof {
            match outcome_g {
                GameState::Deterministic(d) => {
                    assert(d.inv());
                    assert(is_minmax_value(
                        *old(evaluation),
                        d,
                        player,
                        depth as nat,
                        result.1 as int,
                    ));
                },
                GameState::Stochastic(c) => {
                    assert(false);
                },
            }
        }
        pairs.push((w, result.1));
    }
    let r = weighted_mean(&pairs);
    proof {
        assert(r as int == spec_weighted_mean(pairs@));
    }
    r
}

/// Picks the entry of a successor enumeration at the chosen index, if that
/// entry exists and is an immediately playable position.
fn select_child<S: DeterministicGameState>(
    children: Vec<GameState<S, S::Stochastic>>,
    index: usize,
) -> (r: Option<S>)
    ensures
        r matches Some(c) ==> index < children@.len() && children@[index as int] == GameState::<
            S,
            S::Stochastic,
        >::Deterministic(c),
        (index < children@.len() && children@[index as int] is Deterministic) ==> r is Some,
{
    let mut children = children;
    if index < children.len() {
        match children.remove(index) {
            GameState::Deterministic(child) => Some(child),
            GameState::Stochastic(_) => None,
        }
    } else {
        None
    }
}

/// Runs minimax from `state`, then regenerates the successors with a
/// continued random draw and materializes the one at the chosen index.
/// Because each enumeration of successors may consume randomness
/// independently, the materialized state's chance-dealt content can differ
/// from the content explored during the search itself; this regeneration is
/// a deliberate part of the base design. A successor is returned whenever
/// one is owed: at positive depth, on an undecided root with a pending move
/// whose successors are all immediately playable.
pub fn search<S: DeterministicGameState, E: Evaluation<S>>(
    state: &S,
    evaluation: &mut E,
    depth: usize,
    rng: &mut RandomSource,
) -> (r: Option<S>)
    requires
        state.inv(),
    ensures
        r matches Some(c) ==> c.inv() && state.is_successor(&c),
        r is Some ==> depth >= 1 && state.spec_winner() is None,
        (depth >= 1 && state.spec_winner() is None && state.has_move() && state.all_playable())
            ==> r is Some,
{
    let player = state.current_player();
    let dup = state.duplicate();
    let ghost dup_snapshot = dup;
    let result = minmax(
        GameState::Deterministic(dup),
        evaluation,
        rng,
        player,
        depth,
        i32::MIN,
        i32::MAX,
    );
    match result.0 {
        Some(index) => {
            let children = state.children(rng);
            proof {
                assert((index as int) < dup_snapshot.successor_count());
                assert(children@.len() == state.successor_count());
                if state.all_playable() {
                    assert(children@[index as int] is Deterministic);
                }
            }
            select_child(children, index)
        },
        None => None,
    }
}

/// Picks one of the immediately playable successors uniformly at random.
pub fn random_move<S: DeterministicGameState>(state: &S, rng: &mut RandomSource) -> (r: S)
    requires
        state.inv(),
        state.has_move(),
    ensures
        r.inv(),
        state.is_successor(&r),
{
    let mut children = state.children(rng);
    let mut det: Vec<S> = Vec::new();
    while children.len() > 0
        invariant
            forall|i: int| 0 <= i < children@.len() ==> node_inv::<S>(&(#[trigger] children@[i])),
            forall|i: int|
                0 <= i < children@.len() ==> ((#[trigger] children@[i]) matches GameState::Deterministic(d)
                    ==> state.is_successor(&d)),
            forall|i: int|
                0 <= i < det@.len() ==> (#[trigger] det@[i]).inv() && state.is_successor(
                    &det@[i],
                ),
            det@.len() >= 1 || exists|i: int|
                0 <= i < children@.len() && (#[trigger] children@[i]) is Deterministic,
        decreases children.len(),
    {
        let ghost before = children@;
        let child = children.remove(0);
        proof {
            if det@.len() == 0 && !(child is Deterministic) {
                let i = choose|i: int| 0 <= i < before.len() && (#[trigger] before[i]) is Deterministic;
                assert(children@[i - 1] == before[i]);
            }
        }
        match child {
            GameState::Deterministic(d) => {
                det.push(d);
            },
            GameState::Stochastic(_) => {},
        }
    }
    let idx = rng.next_below(det.len());
    det.remove(idx)
}

} // verus!
