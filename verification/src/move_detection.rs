//! Reconstructing a human-readable move description from two consecutive
//! game states: which tiles were taken, from where, and where they landed.

use vstd::prelude::*;

use crate::player::Player;
use crate::state::State;
use crate::tile::{tile_of, Tile};

verus! {

/// Where a draft took its tiles from.
#[derive(Clone, Copy, Debug, PartialEq, Eq, Structural)]
pub enum MoveOrigin {
    Factory(usize),
    Center,
}

/// Where the drafted tiles landed.
#[derive(Clone, Copy, Debug, PartialEq, Eq, Structural)]
pub enum MoveDestination {
    Row(usize),
    Discard,
}

/// Why two states cannot be read as one drafting move.
#[derive(Clone, Copy, Debug, PartialEq, Eq, Structural)]
pub enum MoveError {
    StochasticPhase,
    IllegalTransition,
    AmbiguousTransition,
}

/// One reconstructed drafting move.
#[derive(Clone, Copy, Debug, PartialEq, Eq, Structural)]
pub struct MoveDescription {
    pub player_index: usize,
    pub origin: MoveOrigin,
    pub tile: Tile,
    pub count: usize,
    pub destination: MoveDestination,
    pub placed: usize,
    pub discarded: usize,
}

/// The number of tiles staged in a row snapshot.
pub open spec fn spec_row_count(row: Option<(Tile, usize)>) -> int {
    match row {
        Some((t, n)) => n as int,
        None => 0,
    }
}

/// The number of tiles staged in a row snapshot.
pub fn row_count(row: Option<(Tile, usize)>) -> (n: usize)
    ensures
        n == spec_row_count(row),
{
    match row {
        Some((t, n)) => n,
        None => 0,
    }
}

/// How many more tiles the row of the given rank can take.
pub fn row_space_left(row_index: usize, row: Option<(Tile, usize)>) -> (n: usize)
    requires
        row_index < 5,
    ensures
        n == if spec_row_count(row) <= row_index + 1 {
            row_index + 1 - spec_row_count(row)
        } else {
            0
        },
{
    let size = row_index + 1;
    let used = row_count(row);
    if used <= size {
        size - used
    } else {
        0
    }
}

/// Whether the player's row of the given rank can take tiles of this color.
pub fn row_is_legal(player: &Player, row_index: usize, tile: Tile) -> (r: bool)
    requires
        row_index < 5,
    ensures
        r == player.accepts(tile, row_index as int),
{
    if player.wall.has_tile(row_index, tile) {
        return false;
    }
    match player.rows[row_index] {
        None => true,
        Some((current_tile, _)) => current_tile == tile,
    }
}

/// The ranks of all rows that can take tiles of this color, in increasing
/// order.
pub fn collect_legal_rows(player: &Player, tile: Tile) -> (r: Vec<usize>)
    ensures
        r@.len() <= 5,
        forall|j: int|
            0 <= j < r@.len() ==> (#[trigger] r@[j]) < 5 && player.accepts(tile, r@[j] as int),
        forall|row: int| 0 <= row < 5 && player.accepts(tile, row) ==> r@.contains(row as usize),
{
    let mut rows: Vec<usize> = Vec::new();
    for row_index in 0..5usize
        invariant
            rows@.len() <= row_index,
            forall|j: int|
                0 <= j < rows@.len() ==> (#[trigger] rows@[j]) < 5 && player.accepts(
                    tile,
                    rows@[j] as int,
                ),
            forall|row: int|
                0 <= row < row_index && player.accepts(tile, row) ==> rows@.contains(row as usize),
    {
        let ghost before = rows@;
        if row_is_legal(player, row_index, tile) {
            rows.push(row_index);
            proof {
                assert forall|row: int|
                    0 <= row < row_index + 1 && player.accepts(tile, row) implies rows@.contains(
                    row as usize,
                ) by {
                    if row < row_index {
                        let j = choose|j: int| 0 <= j < before.len() && before[j] == row as usize;
                        assert(rows@[j] == row as usize);
                    } else {
                        assert(rows@[rows@.len() - 1] == row as usize);
                    }
                }
            }
        }
    }
    rows
}

/// Whether row `row` reads as the one the draft landed in, between the two
/// player snapshots. During a scoring transition a filled row may already
/// have been committed and cleared, so growth or clearing both count.
pub open spec fn spec_row_changed(b: Player, a: Player, tile: Tile, scoring: bool, row: int) -> bool {
    &&& b.accepts(tile, row)
    &&& if scoring {
        &&& b.row_fill(row) != row + 1
        &&& (a.rows[row] is None || spec_row_count(a.rows[row]) > b.row_fill(row))
    } else {
        a.rows[row] != b.rows[row]
    }
}

/// Whether two row snapshots hold the same staging.
fn rows_equal(a: Option<(Tile, usize)>, b: Option<(Tile, usize)>) -> (r: bool)
    ensures
        r == (a == b),
{
    match (a, b) {
        (None, None) => true,
        (Some((t1, c1)), Some((t2, c2))) => t1 == t2 && c1 == c2,
        _ => false,
    }
}

/// Finds the unique staging row that changed as the draft's target, if any.
pub fn detect_target_row(
    before_player: &Player,
    after_player: &Player,
    tile: Tile,
    scoring: bool,
) -> (r: Result<Option<usize>, MoveError>)
    ensures
        r matches Ok(c) ==> (c matches Some(row) ==> row < 5 && spec_row_changed(
            *before_player,
            *after_player,
            tile,
            scoring,
            row as int,
        ) && forall|j: int|
            0 <= j < 5 && j != row ==> !spec_row_changed(
                *before_player,
                *after_player,
                tile,
                scoring,
                j,
            )),
        r matches Ok(c) ==> (c is None ==> forall|j: int|
            0 <= j < 5 ==> !spec_row_changed(*before_player, *after_player, tile, scoring, j)),
        r is Err ==> r == Err::<Option<usize>, MoveError>(MoveError::AmbiguousTransition),
{
    let mut candidate: Option<usize> = None;
    for row_index in 0..5usize
        invariant
            candidate matches Some(c) ==> c < row_index && spec_row_changed(
                *before_player,
                *after_player,
                tile,
                scoring,
                c as int,
            ) && forall|j: int|
                0 <= j < row_index && j != c ==> !spec_row_changed(
                    *before_player,
                    *after_player,
                    tile,
                    scoring,
                    j,
                ),
            candidate is None ==> forall|j: int|
                0 <= j < row_index ==> !spec_row_changed(
                    *before_player,
                    *after_player,
                    tile,
                    scoring,
                    j,
                ),
    {
        let legal = row_is_legal(before_player, row_index, tile);
        let mut changed = false;
        if legal {
            let before_row = before_player.rows[row_index];
            let after_row = after_player.rows[row_index];
            if scoring {
                let row_size = row_index + 1;
                let before_count = row_count(before_row);
                if before_count != row_size {
                    let after_count = row_count(after_row);
                    changed = after_row.is_none() || after_count > before_count;
                }
            } else {
                changed = !rows_equal(before_row, after_row);
            }
        }
        if changed {
            if candidate.is_some() {
                return Err(MoveError::AmbiguousTransition);
            }
            candidate = Some(row_index);
        }
    }
    Ok(candidate)
}

/// Finds the origin of the draft: the factory display that was emptied, or
/// the center pile, together with the color and count taken.
pub fn detect_origin(before: &State, after: &State) -> (r: Result<
    (MoveOrigin, Tile, usize),
    MoveError,
>)
    ensures
        r matches Ok(o) ==> ({
            &&& o.2 >= 1
            &&& before.factories@.len() == after.factories@.len()
            &&& match o.0 {
                MoveOrigin::Factory(fi) => fi < before.factories@.len()
                    && before.factories@[fi as int].spec_count(o.1) == o.2
                    && after.factories@[fi as int].total() == 0,
                MoveOrigin::Center => before.center.spec_count(o.1) == after.center.spec_count(o.1)
                    + o.2,
            }
        }),
        r matches Err(e) ==> e == MoveError::IllegalTransition || e
            == MoveError::AmbiguousTransition,
{
    if before.factories.len() != after.factories.len() {
        return Err(MoveError::IllegalTransition);
    }
    let mut changed_factory: Option<usize> = None;
    let flen = before.factories.len();
    for index in 0..flen
        invariant
            flen == before.factories@.len(),
            flen == after.factories@.len(),
            changed_factory matches Some(c) ==> c < flen,
    {
        let bf = before.factories[index];
        let af = after.factories[index];
        if !(bf == af) {
            if changed_factory.is_some() {
                return Err(MoveError::AmbiguousTransition);
            }
            changed_factory = Some(index);
        }
    }
    match changed_factory {
        Some(factory_index) => {
            let before_factory = before.factories[factory_index];
            let after_factory = after.factories[factory_index];
            if !after_factory.is_clear() {
                return Err(MoveError::IllegalTransition);
            }
            let mut chosen: Option<(Tile, usize)> = None;
            for ti in 0..5usize
                invariant
                    factory_index < before.factories@.len(),
                    before_factory == before.factories@[factory_index as int],
                    chosen matches Some(c) ==> c.1 >= 1 && before_factory.spec_count(c.0) == c.1,
            {
                let tile = tile_of(ti);
                let factory_count = before_factory.count(tile);
                if factory_count != 0 {
                    let before_c = before.center.count(tile);
                    let after_c = after.center.count(tile);
                    if after_c == before_c {
                        if chosen.is_some() {
                            return Err(MoveError::AmbiguousTransition);
                        }
                        chosen = Some((tile, factory_count));
                    } else if after_c < before_c || after_c - before_c != factory_count {
                        return Err(MoveError::IllegalTransition);
                    }
                }
            }
            match chosen {
                Some((tile, count)) => Ok((MoveOrigin::Factory(factory_index), tile, count)),
                None => Err(MoveError::IllegalTransition),
            }
        },
        None => {
            let mut chosen: Option<(Tile, usize)> = None;
            for ti in 0..5usize
                invariant
                    chosen matches Some(c) ==> c.1 >= 1 && before.center.spec_count(c.0)
                        == after.center.spec_count(c.0) + c.1,
            {
                let tile = tile_of(ti);
                let before_count = before.center.count(tile);
                let after_count = after.center.count(tile);
                if before_count != after_count {
                    if before_count < after_count {
                        return Err(MoveError::IllegalTransition);
                    }
                    if chosen.is_some() {
                        return Err(MoveError::AmbiguousTransition);
                    }
                    chosen = Some((tile, before_count - after_count));
                }
            }
            match chosen {
                Some((tile, count)) => Ok((MoveOrigin::Center, tile, count)),
                None => Err(MoveError::IllegalTransition),
            }
        },
    }
}

/// Finds where the drafted tiles landed: a staging row (with the split
/// between staged and discarded tiles) or the discard pile.
pub fn determine_destination(
    before: &State,
    after: &State,
    player_index: usize,
    tile: Tile,
    count: usize,
) -> (r: Result<(MoveDestination, usize, usize), MoveError>)
    requires
        player_index < before.players@.len(),
        player_index < after.players@.len(),
        after.total() <= usize::MAX,
    ensures
        r matches Ok(d) ==> ({
            &&& d.1 + d.2 == count
            &&& match d.0 {
                MoveDestination::Row(row) => row < 5
                    && before.players@[player_index as int].accepts(tile, row as int),
                MoveDestination::Discard => d.1 == 0 && d.2 == count && forall|row: int|
                    0 <= row < 5 ==> !before.players@[player_index as int].accepts(tile, row),
            }
        }),
        r matches Err(e) ==> e == MoveError::IllegalTransition || e
            == MoveError::AmbiguousTransition,
{
    let player_before = &before.players[player_index];
    let player_after = &after.players[player_index];
    let scoring = after.is_empty();
    let legal_rows = collect_legal_rows(player_before, tile);
    let detected = detect_target_row(player_before, player_after, tile, scoring);
    let mut target_row: Option<usize> = match detected {
        Ok(t) => t,
        Err(e) => {
            return Err(e);
        },
    };
    if target_row.is_none() && legal_rows.len() == 1 {
        target_row = Some(legal_rows[0]);
    }
    match target_row {
        Some(row_index) => {
            if !row_is_legal(player_before, row_index, tile) {
                return Err(MoveError::IllegalTransition);
            }
            let before_row = player_before.rows[row_index];
            let before_count = row_count(before_row);
            let space_left = row_space_left(row_index, before_row);
            let placed = if count < space_left {
                count
            } else {
                space_left
            };
            let discarded = count - placed;
            if placed == 0 && space_left == 0 && legal_rows.len() > 1 {
                return Err(MoveError::AmbiguousTransition);
            }
            if placed == space_left && space_left > 0 {
                if scoring {
                    if player_after.rows[row_index].is_some() {
                        return Err(MoveError::IllegalTransition);
                    }
                } else {
                    let after_count = row_count(player_after.rows[row_index]);
                    if after_count != before_count + placed {
                        return Err(MoveError::IllegalTransition);
                    }
                }
            } else {
                let after_count = row_count(player_after.rows[row_index]);
                if after_count != before_count + placed {
                    return Err(MoveError::IllegalTransition);
                }
            }
            if !scoring {
                let before_discard = player_before.discard.count(tile);
                let after_discard = player_after.discard.count(tile);
                if after_discard < before_discard || after_discard - before_discard != discarded {
                    return Err(MoveError::IllegalTransition);
                }
            }
            Ok((MoveDestination::Row(row_index), placed, discarded))
        },
        None => {
            if legal_rows.len() != 0 {
                return Err(MoveError::AmbiguousTransition);
            }
            proof {
                assert forall|row: int|
                    0 <= row < 5 implies !before.players@[player_index as int].accepts(
                    tile,
                    row,
                ) by {
                    if before.players@[player_index as int].accepts(tile, row) {
                        assert(legal_rows@.contains(row as usize));
                    }
                }
            }
            if !scoring {
                let before_discard = player_before.discard.count(tile);
                let after_discard = player_after.discard.count(tile);
                if after_discard < before_discard || after_discard - before_discard != count {
                    return Err(MoveError::IllegalTransition);
                }
            }
            Ok((MoveDestination::Discard, 0, count))
        },
    }
}

/// Reads the drafting move that turned `before` into `after`: who moved,
/// which tiles were taken from where, and where they landed.
pub fn describe_move(before: &State, after: &State) -> (r: Result<MoveDescription, MoveError>)
    requires
        before.players@.len() >= 1,
        before.total() <= usize::MAX,
        after.total() <= usize::MAX,
    ensures
        r == Err::<MoveDescription, MoveError>(MoveError::StochasticPhase)
            <==> before.spec_is_empty(),
        r matches Ok(d) ==> ({
            &&& d.player_index as int == before.spec_current_player()
            &&& d.count >= 1
            &&& d.placed + d.discarded == d.count
            &&& (d.origin matches MoveOrigin::Factory(fi) ==> fi < before.factories@.len()
                && before.factories@[fi as int].spec_count(d.tile) == d.count)
            &&& (d.origin is Center ==> before.center.spec_count(d.tile)
                == after.center.spec_count(d.tile) + d.count)
            &&& (d.destination matches MoveDestination::Row(row) ==> row < 5
                && before.players@[d.player_index as int].accepts(d.tile, row as int))
            &&& (d.destination is Discard ==> forall|row: int|
                0 <= row < 5 ==> !before.players@[d.player_index as int].accepts(d.tile, row))
        }),
{
    if before.is_empty() {
        return Err(MoveError::StochasticPhase);
    }
    if before.players.len() != after.players.len() {
        return Err(MoveError::IllegalTransition);
    }
    if before.moves == usize::MAX || after.moves != before.moves + 1 {
        return Err(MoveError::IllegalTransition);
    }
    let player_index = before.current_player();
    let (origin, tile, count) = match detect_origin(before, after) {
        Ok(o) => o,
        Err(e) => {
            return Err(e);
        },
    };
    let (destination, placed, discarded) = match determine_destination(
        before,
        after,
        player_index,
        tile,
        count,
    ) {
        Ok(d) => d,
        Err(e) => {
            return Err(e);
        },
    };
    Ok(
        MoveDescription {
            player_index,
            origin,
            tile,
            count,
            destination,
            placed,
            discarded,
        },
    )
}

} // verus!
