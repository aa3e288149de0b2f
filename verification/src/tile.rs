//! Tiles and multisets of tiles.
//!
//! A `TileSet` is a counter over the five tile colors; the bag, the factory
//! displays, the center pile, the tray and each player's discard pile are all
//! `TileSet`s.

use vstd::prelude::*;

use crate::rng::RandomSource;

verus! {

/// One of the five fixed tile colors.
#[derive(Clone, Copy, Debug, PartialEq, Eq, Structural)]
pub enum Tile {
    Black,
    White,
    Azul,
    Yellow,
    Red,
}

/// The position of a color in the fixed enumeration order of the five colors.
pub open spec fn tile_index(t: Tile) -> int {
    match t {
        Tile::Black => 0,
        Tile::White => 1,
        Tile::Azul => 2,
        Tile::Yellow => 3,
        Tile::Red => 4,
    }
}

/// The color at a position of the fixed enumeration order.
pub open spec fn spec_tile_of(i: int) -> Tile {
    if i == 0 {
        Tile::Black
    } else if i == 1 {
        Tile::White
    } else if i == 2 {
        Tile::Azul
    } else if i == 3 {
        Tile::Yellow
    } else {
        Tile::Red
    }
}

/// The color at position `i` of the fixed enumeration order.
pub fn tile_of(i: usize) -> (t: Tile)
    requires
        i < 5,
    ensures
        t == spec_tile_of(i as int),
        tile_index(t) == i,
{
    if i == 0 {
        Tile::Black
    } else if i == 1 {
        Tile::White
    } else if i == 2 {
        Tile::Azul
    } else if i == 3 {
        Tile::Yellow
    } else {
        Tile::Red
    }
}

/// A multiset of tiles: a non-negative count for each of the five colors.
#[derive(Clone, Copy, Debug, PartialEq, Eq, Structural)]
pub struct TileSet {
    pub black: usize,
    pub white: usize,
    pub azul: usize,
    pub yellow: usize,
    pub red: usize,
}

impl TileSet {
    /// The count stored for one color.
    pub open spec fn spec_count(self, t: Tile) -> int {
        match t {
            Tile::Black => self.black as int,
            Tile::White => self.white as int,
            Tile::Azul => self.azul as int,
            Tile::Yellow => self.yellow as int,
            Tile::Red => self.red as int,
        }
    }

    /// The number of tiles in the set: the sum of the five counts.
    pub open spec fn total(self) -> int {
        self.black + self.white + self.azul + self.yellow + self.red
    }

    /// The sum of the counts of the first `k` colors in enumeration order.
    pub open spec fn total_upto(self, k: int) -> int
        decreases k,
    {
        if k <= 0 {
            0
        } else {
            self.total_upto(k - 1) + self.spec_count(spec_tile_of(k - 1))
        }
    }

    /// The five per-color counts sum to the total.
    pub proof fn lemma_total_upto(self)
        ensures
            self.total_upto(5) == self.total(),
    {
        assert(self.total_upto(1) == self.total_upto(0) + self.spec_count(spec_tile_of(0)));
        assert(self.total_upto(2) == self.total_upto(1) + self.spec_count(spec_tile_of(1)));
        assert(self.total_upto(3) == self.total_upto(2) + self.spec_count(spec_tile_of(2)));
        assert(self.total_upto(4) == self.total_upto(3) + self.spec_count(spec_tile_of(3)));
        assert(self.total_upto(5) == self.total_upto(4) + self.spec_count(spec_tile_of(4)));
    }

    /// The tile set with `m` more tiles of color `t`.
    pub open spec fn with_added(self, t: Tile, m: int) -> TileSet {
        match t {
            Tile::Black => TileSet { black: (self.black + m) as usize, ..self },
            Tile::White => TileSet { white: (self.white + m) as usize, ..self },
            Tile::Azul => TileSet { azul: (self.azul + m) as usize, ..self },
            Tile::Yellow => TileSet { yellow: (self.yellow + m) as usize, ..self },
            Tile::Red => TileSet { red: (self.red + m) as usize, ..self },
        }
    }

    /// An empty tile set.
    pub fn new() -> (r: TileSet)
        ensures
            forall|t: Tile| r.spec_count(t) == 0,
            r.total() == 0,
    {
        TileSet { black: 0, white: 0, azul: 0, yellow: 0, red: 0 }
    }

    /// The count stored for one color.
    pub fn count(&self, tile: Tile) -> (r: usize)
        ensures
            r == self.spec_count(tile),
    {
        match tile {
            Tile::Black => self.black,
            Tile::White => self.white,
            Tile::Azul => self.azul,
            Tile::Yellow => self.yellow,
            Tile::Red => self.red,
        }
    }

    /// Adds `n` tiles of one color.
    pub fn add_tiles(&mut self, tile: Tile, n: usize)
        requires
            old(self).spec_count(tile) + n <= usize::MAX,
        ensures
            final(self).spec_count(tile) == old(self).spec_count(tile) + n,
            forall|u: Tile| u != tile ==> final(self).spec_count(u) == old(self).spec_count(u),
            final(self).total() == old(self).total() + n,
            *final(self) == old(self).with_added(tile, n as int),
    {
        match tile {
            Tile::Black => self.black = self.black + n,
            Tile::White => self.white = self.white + n,
            Tile::Azul => self.azul = self.azul + n,
            Tile::Yellow => self.yellow = self.yellow + n,
            Tile::Red => self.red = self.red + n,
        }
    }

    /// Adds one tile.
    pub fn push(&mut self, tile: Tile)
        requires
            old(self).spec_count(tile) + 1 <= usize::MAX,
        ensures
            final(self).spec_count(tile) == old(self).spec_count(tile) + 1,
            forall|u: Tile| u != tile ==> final(self).spec_count(u) == old(self).spec_count(u),
            final(self).total() == old(self).total() + 1,
    {
        self.add_tiles(tile, 1);
    }

    /// Zeroes one color and returns the count it held ("take all of one color").
    pub fn drain(&mut self, tile: Tile) -> (r: usize)
        ensures
            r == old(self).spec_count(tile),
            final(self).spec_count(tile) == 0,
            forall|u: Tile| u != tile ==> final(self).spec_count(u) == old(self).spec_count(u),
            final(self).total() == old(self).total() - r,
    {
        let count = self.count(tile);
        match tile {
            Tile::Black => self.black = 0,
            Tile::White => self.white = 0,
            Tile::Azul => self.azul = 0,
            Tile::Yellow => self.yellow = 0,
            Tile::Red => self.red = 0,
        }
        count
    }

    /// Merges another tile set in.
    pub fn extend(&mut self, other: TileSet)
        requires
            old(self).total() + other.total() <= usize::MAX,
        ensures
            forall|t: Tile|
                final(self).spec_count(t) == old(self).spec_count(t) + other.spec_count(t),
            final(self).total() == old(self).total() + other.total(),
    {
        self.black = self.black + other.black;
        self.white = self.white + other.white;
        self.azul = self.azul + other.azul;
        self.yellow = self.yellow + other.yellow;
        self.red = self.red + other.red;
    }

    /// The number of tiles in the set.
    pub fn len(&self) -> (r: usize)
        requires
            self.total() <= usize::MAX,
        ensures
            r == self.total(),
    {
        self.black + self.white + self.azul + self.yellow + self.red
    }

    /// Whether the set holds no tiles.
    pub fn is_clear(&self) -> (r: bool)
        ensures
            r == (self.total() == 0),
    {
        self.black == 0 && self.white == 0 && self.azul == 0 && self.yellow == 0 && self.red == 0
    }

    /// Removes one tile at random and returns its color; each color is chosen
    /// with probability proportional to its remaining count, so the returned
    /// color always had a positive count.
    pub fn draw_one(&mut self, rng: &mut RandomSource) -> (t: Tile)
        requires
            old(self).total() >= 1,
            old(self).total() <= usize::MAX,
        ensures
            old(self).spec_count(t) >= 1,
            final(self).spec_count(t) == old(self).spec_count(t) - 1,
            forall|u: Tile| u != t ==> final(self).spec_count(u) == old(self).spec_count(u),
            final(self).total() == old(self).total() - 1,
    {
        let total = self.len();
        let u = rng.next_below(total);
        let tile = if u < self.black {
            Tile::Black
        } else if u < self.black + self.white {
            Tile::White
        } else if u < self.black + self.white + self.azul {
            Tile::Azul
        } else if u < self.black + self.white + self.azul + self.yellow {
            Tile::Yellow
        } else {
            Tile::Red
        };
        match tile {
            Tile::Black => self.black = self.black - 1,
            Tile::White => self.white = self.white - 1,
            Tile::Azul => self.azul = self.azul - 1,
            Tile::Yellow => self.yellow = self.yellow - 1,
            Tile::Red => self.red = self.red - 1,
        }
        tile
    }

    /// Removes `count` tiles at random (sequential draws without replacement)
    /// and returns them as a tile set.
    pub fn draw(&mut self, rng: &mut RandomSource, count: usize) -> (r: TileSet)
        requires
            count <= old(self).total(),
            old(self).total() <= usize::MAX,
        ensures
            r.total() == count,
            final(self).total() == old(self).total() - count,
            forall|t: Tile|
                final(self).spec_count(t) + r.spec_count(t) == old(self).spec_count(t),
    {
        let mut drawn = TileSet::new();
        let ghost start = *self;
        for i in 0..count
            invariant
                drawn.total() == i,
                self.total() == start.total() - i,
                i <= count <= start.total() <= usize::MAX,
                forall|t: Tile| self.spec_count(t) + drawn.spec_count(t) == start.spec_count(t),
        {
            let tile = self.draw_one(rng);
            drawn.push(tile);
        }
        drawn
    }
}

} // verus!
