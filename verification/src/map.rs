//! The battlefield: a hex map of tiles, and where each creature stands.
use vstd::prelude::*;
use std::collections::HashMap;
use std::collections::hash_map::{Entry, VacantEntry};
use crate::assoc::{map_of, lemma_map_of_all, lemma_map_of_push, lemma_map_of_update};
use crate::creature::Creature;
use crate::error::Error;
use crate::hex::{Hex, hex_distance};
use crate::id_map::{Id, same_id};
use crate::vec_set::VecSet;
use crate::open_set::{open_items, open_set_new, open_set_insert, open_set_remove, open_set_is_empty, open_set_walk};

verus! {

broadcast use vstd::std_specs::hash::group_hash_axioms;

#[derive(Debug, Clone, Copy, PartialEq, Eq, Structural, Hash)]
pub enum Space {
    Empty,
    Wall,
}

/// One hex of the map: its terrain and the creature standing on it, if any.
#[derive(Debug, Clone, Copy)]
pub struct Tile {
    pub space: Space,
    pub creature: Option<Id<Creature>>,
}

/// A creature can step onto the tile: empty ground with nobody on it.
pub open spec fn tile_open(t: Tile) -> bool {
    t.space == Space::Empty && t.creature is None
}

impl Tile {
    pub fn is_open(&self) -> (r: bool)
        ensures
            r == tile_open(*self),
    {
        match self.space {
            Space::Empty => self.creature.is_none(),
            Space::Wall => false,
        }
    }
}

/// The terrain of a new map at `h`: walls on the rim at distance 5, and pillars at distance
/// 2 where both coordinates are even.
pub open spec fn initial_space(h: Hex) -> Space {
    let d = hex_distance(Hex { x: 0, y: 0 }, h);
    if d == 5 {
        Space::Wall
    } else if d == 2 && h.x % 2 == 0 && h.y % 2 == 0 {
        Space::Wall
    } else {
        Space::Empty
    }
}


/// `n` is one of the six neighbors of `h`.
pub open spec fn adjacent(h: Hex, n: Hex) -> bool {
    crate::hex::spec_neighbors(h).contains(n)
}

/// A step may end on `h`: there is a tile, and it is empty ground (when `space_only`) or
/// open.
pub open spec fn step_open(tiles: Map<Hex, Tile>, h: Hex, space_only: bool) -> bool {
    &&& tiles.contains_key(h)
    &&& if space_only {
        tiles[h].space == Space::Empty
    } else {
        tile_open(tiles[h])
    }
}

/// The hexes reachable from `start` in at most `k` steps, each step onto a neighbor on
/// which a step may end.
pub open spec fn reach(tiles: Map<Hex, Tile>, start: Hex, k: nat, space_only: bool) -> Set<Hex>
    decreases k,
{
    if k == 0 {
        set![start]
    } else {
        let prev = reach(tiles, start, (k - 1) as nat, space_only);
        prev.union(
            Set::new(
                |n: Hex|
                    step_open(tiles, n, space_only) && exists|h: Hex| prev.contains(h) && #[trigger] adjacent(h, n),
            ),
        )
    }
}

pub proof fn lemma_reach_mono(tiles: Map<Hex, Tile>, start: Hex, k: nat, space_only: bool)
    ensures
        forall|h: Hex| #[trigger] reach(tiles, start, k, space_only).contains(h) ==> reach(tiles, start, k + 1, space_only).contains(h),
{
}

proof fn lemma_reach_interior(tiles: Map<Hex, Tile>, start: Hex, k: nat, space_only: bool)
    requires
        start.interior(),
        forall|h: Hex| #[trigger] tiles.contains_key(h) ==> h.interior(),
    ensures
        forall|h: Hex| #[trigger] reach(tiles, start, k, space_only).contains(h) ==> h.interior(),
    decreases k,
{
    if k > 0 {
        lemma_reach_interior(tiles, start, (k - 1) as nat, space_only);
        assert forall|h: Hex| #[trigger] reach(tiles, start, k, space_only).contains(h) implies h.interior() by {
            if !reach(tiles, start, (k - 1) as nat, space_only).contains(h) {
                assert(step_open(tiles, h, space_only));
            }
        }
    }
}

/// A step from a hex reached in `k` steps reaches its neighbor in `k + 1`.
pub proof fn lemma_reach_step(tiles: Map<Hex, Tile>, start: Hex, k: nat, space_only: bool, h: Hex, n: Hex)
    requires
        reach(tiles, start, k, space_only).contains(h),
        adjacent(h, n),
        step_open(tiles, n, space_only),
    ensures
        reach(tiles, start, k + 1, space_only).contains(n),
{
    let prev = reach(tiles, start, k, space_only);
    assert(prev.contains(h) && adjacent(h, n));
    assert(reach(tiles, start, k + 1, space_only) == prev.union(
        Set::new(
            |m: Hex|
                step_open(tiles, m, space_only) && exists|g: Hex| prev.contains(g) && #[trigger] adjacent(g, m),
        ),
    ));
}

/// Once a step adds nothing, no later step does.
proof fn lemma_reach_fix(tiles: Map<Hex, Tile>, start: Hex, d: nat, k: nat, space_only: bool)
    requires
        d <= k,
        reach(tiles, start, d + 1, space_only) == reach(tiles, start, d, space_only),
    ensures
        reach(tiles, start, k, space_only) == reach(tiles, start, d, space_only),
    decreases k - d,
{
    if k > d + 1 {
        lemma_reach_fix(tiles, start, d, (k - 1) as nat, space_only);
        assert(reach(tiles, start, k, space_only) =~= reach(tiles, start, d, space_only));
    } else if k == d + 1 {
    }
}

/// Step `i` of `p` goes to a neighbor whose tile is open.
pub open spec fn step_ok(tiles: Map<Hex, Tile>, p: Seq<Hex>, i: int) -> bool {
    adjacent(p[i], p[i + 1]) && step_open(tiles, p[i + 1], false)
}

/// `p` walks from `from` to `to`, every step onto a neighbor whose tile is open.
pub open spec fn is_walk(tiles: Map<Hex, Tile>, p: Seq<Hex>, from: Hex, to: Hex) -> bool {
    &&& p.len() >= 1
    &&& p[0] == from
    &&& p[p.len() - 1] == to
    &&& forall|i: int| 0 <= i < p.len() - 1 ==> #[trigger] step_ok(tiles, p, i)
}

/// `p` walks from `from` to `to` and no such walk is shorter.
pub open spec fn is_shortest_walk(tiles: Map<Hex, Tile>, p: Seq<Hex>, from: Hex, to: Hex) -> bool {
    &&& is_walk(tiles, p, from, to)
    &&& forall|q: Seq<Hex>| #[trigger] is_walk(tiles, q, from, to) ==> p.len() <= q.len()
}

/// Some walk leads from `from` to `to`.
pub open spec fn reachable(tiles: Map<Hex, Tile>, from: Hex, to: Hex) -> bool {
    exists|p: Seq<Hex>| #[trigger] is_walk(tiles, p, from, to)
}

/// How many entries of `g` are set.
spec fn count_some(g: Seq<Option<usize>>) -> nat
    decreases g.len(),
{
    if g.len() == 0 {
        0
    } else {
        count_some(g.drop_last()) + (if g.last() is Some { 1nat } else { 0nat })
    }
}

proof fn lemma_count_update(g: Seq<Option<usize>>, i: int, x: Option<usize>)
    requires
        0 <= i < g.len(),
    ensures
        count_some(g.update(i, x)) + (if g[i] is Some { 1int } else { 0int }) == count_some(g) + (
        if x is Some { 1int } else { 0int }),
    decreases g.len(),
{
    if i < g.len() - 1 {
        lemma_count_update(g.drop_last(), i, x);
        assert(g.update(i, x).drop_last() =~= g.drop_last().update(i, x));
    } else {
        assert(g.update(i, x).drop_last() =~= g.drop_last());
    }
}

proof fn lemma_count_le(g: Seq<Option<usize>>)
    ensures
        count_some(g) <= g.len(),
    decreases g.len(),
{
    if g.len() > 0 {
        lemma_count_le(g.drop_last());
    }
}

proof fn lemma_count_none(g: Seq<Option<usize>>)
    requires
        forall|i: int| 0 <= i < g.len() ==> g[i] is None,
    ensures
        count_some(g) == 0,
    decreases g.len(),
{
    if g.len() > 0 {
        lemma_count_none(g.drop_last());
    }
}

/// What node `v` adds to the search's progress measure: unvisited nodes weigh most,
/// visited ones twice their distance, plus one while still to be looked at.
spec fn phi(g: Seq<Option<usize>>, open: Set<u64>, nn: int, v: int) -> nat {
    match g[v] {
        None => (2 * nn + 1) as nat,
        Some(x) => (2 * x + (if open.contains(v as u64) { 1int } else { 0int })) as nat,
    }
}

spec fn pot(g: Seq<Option<usize>>, open: Set<u64>, nn: int, i: int) -> nat
    decreases i,
{
    if i <= 0 {
        0
    } else {
        pot(g, open, nn, i - 1) + phi(g, open, nn, i - 1)
    }
}

proof fn lemma_pot_update(
    g1: Seq<Option<usize>>,
    o1: Set<u64>,
    g2: Seq<Option<usize>>,
    o2: Set<u64>,
    nn: int,
    j: int,
    i: int,
)
    requires
        0 <= j,
        forall|v: int| 0 <= v < i && v != j ==> phi(g1, o1, nn, v) == phi(g2, o2, nn, v),
    ensures
        j < i ==> pot(g2, o2, nn, i) + phi(g1, o1, nn, j) == pot(g1, o1, nn, i) + phi(g2, o2, nn, j),
        j >= i ==> pot(g2, o2, nn, i) == pot(g1, o1, nn, i),
    decreases i,
{
    if i > 0 {
        lemma_pot_update(g1, o1, g2, o2, nn, j, i - 1);
    }
}

/// The two lines of sight from a viewer's hex to `to`, each given by the hexes strictly
/// between the ends; the lines differ where they pass exactly between two hexes.
#[derive(Debug, Clone)]
pub struct SightLine {
    pub to: Hex,
    pub between: Vec<Hex>,
    pub between_alt: Vec<Hex>,
}

/// Nothing at `h` blocks the view of creature `id`: no tile there, or a tile that is not a
/// wall and holds no other creature.
pub open spec fn hex_clear(tiles: Map<Hex, Tile>, h: Hex, id: Id<Creature>) -> bool {
    tiles.contains_key(h) ==> tiles[h].space != Space::Wall && (tiles[h].creature matches Some(c) ==> c == id)
}

pub open spec fn line_clear(tiles: Map<Hex, Tile>, between: Seq<Hex>, id: Id<Creature>) -> bool {
    forall|i: int| 0 <= i < between.len() ==> #[trigger] hex_clear(tiles, between[i], id)
}

pub open spec fn sees_along(tiles: Map<Hex, Tile>, line: SightLine, id: Id<Creature>) -> bool {
    line_clear(tiles, line.between@, id) || line_clear(tiles, line.between_alt@, id)
}

/// The far end of `line` is seen from `start`: another hex, a tile of empty ground, and
/// one of the two lines is clear.
pub open spec fn line_sees(tiles: Map<Hex, Tile>, start: Hex, id: Id<Creature>, line: SightLine) -> bool {
    &&& line.to != start
    &&& tiles.contains_key(line.to)
    &&& tiles[line.to].space == Space::Empty
    &&& sees_along(tiles, line, id)
}

/// `start` and the far ends of the lines that are seen from it.
pub open spec fn seen_from(tiles: Map<Hex, Tile>, start: Hex, id: Id<Creature>, lines: Seq<SightLine>) -> Set<Hex> {
    Set::new(
        |h: Hex|
            h == start || exists|k: int| 0 <= k < lines.len() && #[trigger] line_sees(tiles, start, id, lines[k]) && lines[k].to == h,
    )
}

/// The entry if it is vacant, else `Err(err)`.
pub fn vacant_or<'a, K, V, E>(e: Entry<'a, K, V>, err: E) -> (r: Result<VacantEntry<'a, K, V>, E>)
    ensures
        e is Occupied ==> r == Err::<VacantEntry<'a, K, V>, E>(err),
        e matches Entry::Vacant(v) ==> r == Ok::<VacantEntry<'a, K, V>, E>(v),
{
    match e {
        Entry::Occupied(_) => Err(err),
        Entry::Vacant(v) => Ok(v),
    }
}

#[derive(Debug, Clone)]
pub struct TileMap {
    coords: Vec<Hex>,
    tiles: Vec<Tile>,
    creatures: HashMap<u32, Hex>,
}

impl TileMap {
    /// The tiles, by hex.
    pub closed spec fn tiles_view(&self) -> Map<Hex, Tile> {
        map_of(self.coords@, self.tiles@)
    }

    /// Where each creature stands, by the number of its id.
    pub closed spec fn places_view(&self) -> Map<u32, Hex> {
        self.creatures@
    }

    /// The hexes of the tiles, in the map's own order.
    pub closed spec fn coord_seq(&self) -> Seq<Hex> {
        self.coords@
    }

    /// Both maps have the same hexes in the same order, the same tiles, and the same
    /// creatures in the same places.
    pub open spec fn same_map(&self, o: TileMap) -> bool {
        &&& self.coord_seq() == o.coord_seq()
        &&& self.tiles_view() == o.tiles_view()
        &&& self.places_view() == o.places_view()
    }

    /// A copy of this map.
    pub fn duplicate(&self) -> (r: TileMap)
        requires
            self.wf(),
        ensures
            r.wf(),
            r.same_map(*self),
    {
        let mut coords: Vec<Hex> = Vec::new();
        let mut tiles: Vec<Tile> = Vec::new();
        let mut i: usize = 0;
        while i < self.coords.len()
            invariant
                self.coords@.len() == self.tiles@.len(),
                i <= self.coords@.len(),
                coords@ == self.coords@.take(i as int),
                tiles@ == self.tiles@.take(i as int),
            decreases self.coords@.len() - i,
        {
            coords.push(self.coords[i]);
            tiles.push(self.tiles[i]);
            assert(coords@ =~= self.coords@.take(i + 1));
            assert(tiles@ =~= self.tiles@.take(i + 1));
            i = i + 1;
        }
        assert(coords@ =~= self.coords@);
        assert(tiles@ =~= self.tiles@);
        TileMap { coords, tiles, creatures: self.creatures.clone() }
    }

    /// Each hex has one tile, every neighbor of a tile has coordinates that fit, and every
    /// creature stands on a tile.
    pub closed spec fn wf(&self) -> bool {
        &&& self.coords@.len() == self.tiles@.len()
        &&& self.coords@.len() < u32::MAX
        &&& self.coords@.no_duplicates()
        &&& forall|i: int| 0 <= i < self.coords@.len() ==> (#[trigger] self.coords@[i]).interior()
        &&& forall|k: u32| #[trigger] self.creatures@.contains_key(k) ==> self.coords@.contains(
            self.creatures@[k],
        )
    }

    pub proof fn lemma_wf(&self)
        requires
            self.wf(),
        ensures
            forall|h: Hex| #[trigger] self.tiles_view().contains_key(h) <==> self.coord_seq().contains(h),
            forall|h: Hex| #[trigger] self.tiles_view().contains_key(h) ==> h.interior(),
            forall|k: u32| #[trigger] self.places_view().contains_key(k)
                ==> self.tiles_view().contains_key(self.places_view()[k]),
            self.tiles_view().dom().finite(),
            self.coord_seq().no_duplicates(),
    {
        lemma_map_of_all(self.coords@, self.tiles@);
        assert forall|h: Hex| #[trigger] self.tiles_view().contains_key(h) implies h.interior() by {
            let i = choose|i: int| 0 <= i < self.coords@.len() && self.coords@[i] == h;
        }
        assert(self.tiles_view().dom() =~= self.coords@.to_set());
    }

    /// The map that a new game starts on: every hex within 5 of the origin, walled as
    /// `initial_space` says, with nobody on it.
    pub fn new() -> (r: TileMap)
        ensures
            r.wf(),
            forall|h: Hex| #[trigger] r.tiles_view().contains_key(h) <==> hex_distance(
                Hex { x: 0, y: 0 },
                h,
            ) <= 5,
            forall|h: Hex| #[trigger] r.tiles_view().contains_key(h) ==> r.tiles_view()[h] == (Tile {
                space: initial_space(h),
                creature: None,
            }),
            r.places_view() == Map::<u32, Hex>::empty(),
    {
        let origin = Hex::origin();
        let area = origin.area(5);
        let mut coords: Vec<Hex> = Vec::new();
        let mut tiles: Vec<Tile> = Vec::new();
        let mut i: usize = 0;
        assert(area@.len() <= 121) by {
            assert((2 * 5int + 1) * (2 * 5int + 1) == 121) by (nonlinear_arith);
        }
        while i < area.len()
            invariant
                area@.len() <= 121,
                origin == (Hex { x: 0, y: 0 }),
                area@.no_duplicates(),
                forall|h: Hex| #[trigger] area@.contains(h) <==> hex_distance(origin, h) <= 5,
                i <= area@.len(),
                coords@ == area@.take(i as int),
                tiles@.len() == i,
                forall|j: int| 0 <= j < i ==> #[trigger] tiles@[j] == (Tile {
                    space: initial_space(coords@[j]),
                    creature: None,
                }),
            decreases area@.len() - i,
        {
            let coord = area[i];
            assert(area@.contains(coord));
            let d = coord.distance_to(origin);
            assert(hex_distance(coord, origin) == hex_distance(origin, coord));
            let space = if d == 5 {
                Space::Wall
            } else if d == 2 && coord.x % 2 == 0 && coord.y % 2 == 0 {
                Space::Wall
            } else {
                Space::Empty
            };
            coords.push(coord);
            tiles.push(Tile { space, creature: None });
            assert(coords@ =~= area@.take(i + 1));
            i = i + 1;
        }
        assert(coords@ =~= area@);
        let r = TileMap { coords, tiles, creatures: HashMap::new() };
        proof {
            lemma_map_of_all(coords@, tiles@);
            assert forall|j: int| 0 <= j < coords@.len() implies (#[trigger] coords@[j]).interior() by {
                assert(area@.contains(coords@[j]));
                let h = coords@[j];
                assert(hex_distance(origin, h) <= 5);
            }
            assert forall|h: Hex| #[trigger] r.tiles_view().contains_key(h) implies r.tiles_view()[h]
                == (Tile { space: initial_space(h), creature: None }) by {
                let j = choose|j: int| 0 <= j < coords@.len() && coords@[j] == h;
            }
            assert(r.creatures@ =~= Map::<u32, Hex>::empty());
        }
        r
    }

    /// The hexes and tiles of the map, each hex with the tile at the same position.
    pub fn tiles(&self) -> (r: (&[Hex], &[Tile]))
        requires
            self.wf(),
        ensures
            r.0@ == self.coord_seq(),
            r.1@.len() == r.0@.len(),
            map_of(r.0@, r.1@) == self.tiles_view(),
    {
        (self.coords.as_slice(), self.tiles.as_slice())
    }

    /// Where each creature stands, by the number of its id.
    pub fn creatures(&self) -> (r: &HashMap<u32, Hex>)
        ensures
            r@ == self.places_view(),
    {
        &self.creatures
    }

    fn tile_index(&self, h: Hex) -> (r: Option<usize>)
        requires
            self.wf(),
        ensures
            match r {
                Some(i) => i < self.coords@.len() && self.coords@[i as int] == h,
                None => !self.coords@.contains(h),
            },
    {
        let mut i: usize = 0;
        while i < self.coords.len()
            invariant
                self.wf(),
                i <= self.coords@.len(),
                forall|j: int| 0 <= j < i ==> self.coords@[j] != h,
            decreases self.coords@.len() - i,
        {
            if self.coords[i] == h {
                return Some(i);
            }
            i = i + 1;
        }
        None
    }

    /// The tile at `h`, if the map has one there.
    pub fn tile(&self, h: Hex) -> (r: Option<Tile>)
        requires
            self.wf(),
        ensures
            r == self.tiles_view().get(h),
    {
        proof {
            lemma_map_of_all(self.coords@, self.tiles@);
        }
        match self.tile_index(h) {
            Some(i) => Some(self.tiles[i]),
            None => None,
        }
    }

    /// Where the creature with id `id` stands, if it is on the map.
    pub fn creature_hex(&self, id: Id<Creature>) -> (r: Option<Hex>)
        ensures
            r == self.places_view().get(id@),
    {
        match self.creatures.get(&id.value()) {
            Some(h) => Some(*h),
            None => None,
        }
    }

    /// Puts a creature on the map at `at`.
    pub fn place_at(&mut self, creature_id: Id<Creature>, at: Hex) -> (r: Result<(), Error>)
        requires
            old(self).wf(),
        ensures
            final(self).wf(),
            final(self).coord_seq() == old(self).coord_seq(),
            !old(self).tiles_view().contains_key(at) ==> r matches Err(Error::OutOfBounds),
            old(self).tiles_view().contains_key(at) && old(self).tiles_view()[at].creature is Some
                ==> r matches Err(Error::Obstructed),
            old(self).tiles_view().contains_key(at) && old(self).tiles_view()[at].creature is None
                && old(self).places_view().contains_key(creature_id@) ==> r matches Err(
                Error::Obstructed,
            ),
            r is Err ==> final(self).tiles_view() == old(self).tiles_view() && final(self).places_view()
                == old(self).places_view(),
            r is Ok ==> old(self).tiles_view().contains_key(at) && final(self).tiles_view() == old(
                self,
            ).tiles_view().insert(at, Tile { creature: Some(creature_id), ..old(self).tiles_view()[at] })
                && final(self).places_view() == old(self).places_view().insert(creature_id@, at),
            r is Ok <==> (old(self).tiles_view().contains_key(at) && old(self).tiles_view()[at].creature
                is None && !old(self).places_view().contains_key(creature_id@)),
    {
        proof {
            lemma_map_of_all(self.coords@, self.tiles@);
        }
        let ix = match self.tile_index(at) {
            Some(i) => i,
            None => return Err(Error::OutOfBounds),
        };
        if self.tiles[ix].creature.is_some() {
            return Err(Error::Obstructed);
        }
        if self.creatures.contains_key(&creature_id.value()) {
            return Err(Error::Obstructed);
        }
        let ghost old_tiles = self.tiles@;
        let ghost old_creatures = self.creatures@;
        let c_ent = match vacant_or(self.creatures.entry(creature_id.value()), Error::Obstructed) {
            Ok(v) => v,
            Err(e) => return Err(e),
        };
        let t = self.tiles[ix];
        self.tiles.set(ix, Tile { creature: Some(creature_id), ..t });
        c_ent.insert(at);
        proof {
            lemma_map_of_update(self.coords@, old_tiles, ix as int, Tile { creature: Some(creature_id), ..t });
            assert(self.tiles@ == old_tiles.update(ix as int, Tile { creature: Some(creature_id), ..t }));
            assert(self.creatures@ == old_creatures.insert(creature_id@, at));
        }
        Ok(())
    }

    /// Moves a creature already on the map to `to`. The tile at `to` takes the creature
    /// first and the tile it left is cleared after, so moving to the hex it stands on
    /// leaves that tile empty.
    pub fn move_to(&mut self, creature_id: Id<Creature>, to: Hex) -> (r: Result<(), Error>)
        requires
            old(self).wf(),
        ensures
            final(self).wf(),
            final(self).coord_seq() == old(self).coord_seq(),
            !old(self).places_view().contains_key(creature_id@) ==> r matches Err(Error::NoSuchCreature),
            old(self).places_view().contains_key(creature_id@) && !old(self).tiles_view().contains_key(to)
                ==> r matches Err(Error::OutOfBounds),
            r is Err ==> final(self).tiles_view() == old(self).tiles_view() && final(self).places_view()
                == old(self).places_view(),
            r is Ok <==> old(self).places_view().contains_key(creature_id@) && old(self).tiles_view().contains_key(to),
            r is Ok ==> {
                let from = old(self).places_view()[creature_id@];
                let t1 = old(self).tiles_view().insert(to, Tile { creature: Some(creature_id), ..old(self).tiles_view()[to] });
                &&& final(self).tiles_view() == t1.insert(from, Tile { creature: None, ..t1[from] })
                &&& final(self).places_view() == old(self).places_view().insert(creature_id@, to)
            },
    {
        proof {
            lemma_map_of_all(self.coords@, self.tiles@);
        }
        let from = match self.creatures.get(&creature_id.value()) {
            Some(h) => *h,
            None => return Err(Error::NoSuchCreature),
        };
        let to_ix = match self.tile_index(to) {
            Some(i) => i,
            None => return Err(Error::OutOfBounds),
        };
        let from_ix = match self.tile_index(from) {
            Some(i) => i,
            None => {
                proof {
                    assert(false);
                }
                return Err(Error::NoSuchCreature);
            },
        };
        let ghost t0 = self.tiles@;
        let t = self.tiles[to_ix];
        self.tiles.set(to_ix, Tile { creature: Some(creature_id), ..t });
        let ghost t1 = self.tiles@;
        let f = self.tiles[from_ix];
        self.tiles.set(from_ix, Tile { creature: None, ..f });
        self.creatures.insert(creature_id.value(), to);
        proof {
            lemma_map_of_update(self.coords@, t0, to_ix as int, Tile { creature: Some(creature_id), ..t });
            lemma_map_of_update(self.coords@, t1, from_ix as int, Tile { creature: None, ..f });
            lemma_map_of_all(self.coords@, t1);
            assert forall|k: u32| #[trigger] self.creatures@.contains_key(k) implies self.coords@.contains(
                self.creatures@[k]) by {
                if k != creature_id@ {
                    assert(old(self).creatures@.contains_key(k));
                }
            }
        }
        Ok(())
    }

    /// Hexes within `range` steps of `start`, each step onto a tile that is open: empty
    /// ground when `space_only`, else empty ground with nobody on it. `start` is always in.
    pub fn range_from(&self, start: Hex, range: i32, space_only: bool) -> (r: VecSet<Hex>)
        requires
            self.wf(),
            start.interior(),
        ensures
            r@ == reach(self.tiles_view(), start, range_steps(range), space_only),
    {
        let ghost tv = self.tiles_view();
        proof {
            self.lemma_wf();
        }
        let mut out: VecSet<Hex> = VecSet::new();
        out.insert(start);
        let mut frontier: Vec<Hex> = Vec::new();
        frontier.push(start);
        let mut d: i32 = 0;
        proof {
            assert(out@ =~= reach(tv, start, 0, space_only));
        }
        while d < range && frontier.len() > 0
            invariant
                self.wf(),
                tv == self.tiles_view(),
                forall|h: Hex| #[trigger] tv.contains_key(h) ==> h.interior(),
                start.interior(),
                0 <= d,
                d <= range || d == 0,
                d == 0 ==> frontier@.len() == 1,
                out@ == reach(tv, start, d as nat, space_only),
                forall|i: int| 0 <= i < frontier@.len() ==> reach(tv, start, d as nat, space_only).contains(#[trigger] frontier@[i]),
                forall|h: Hex| #[trigger] reach(tv, start, d as nat, space_only).contains(h) ==> frontier@.contains(h)
                    || (d > 0 && reach(tv, start, (d - 1) as nat, space_only).contains(h)),
            decreases range - d,
        {
            let ghost rd = reach(tv, start, d as nat, space_only);
            let ghost rn = reach(tv, start, (d + 1) as nat, space_only);
            proof {
                lemma_reach_interior(tv, start, d as nat, space_only);
                lemma_reach_mono(tv, start, d as nat, space_only);
            }
            let mut next: Vec<Hex> = Vec::new();
            let mut i: usize = 0;
            while i < frontier.len()
                invariant
                    self.wf(),
                    tv == self.tiles_view(),
                    0 <= d,
                    rd == reach(tv, start, d as nat, space_only),
                    rn == reach(tv, start, (d + 1) as nat, space_only),
                    forall|h: Hex| #[trigger] rd.contains(h) ==> h.interior(),
                    forall|h: Hex| #[trigger] rd.contains(h) ==> rn.contains(h),
                    i <= frontier@.len(),
                    forall|j: int| 0 <= j < frontier@.len() ==> rd.contains(#[trigger] frontier@[j]),
                    forall|h: Hex| #[trigger] out@.contains(h) <==> rd.contains(h) || next@.contains(h),
                    forall|j: int| 0 <= j < next@.len() ==> rn.contains(#[trigger] next@[j]) && !rd.contains(next@[j]),
                    forall|j: int, n: Hex| 0 <= j < i && #[trigger] adjacent(frontier@[j], n) && step_open(tv, n, space_only)
                        ==> out@.contains(n),
                decreases frontier@.len() - i,
            {
                let h = frontier[i];
                assert(rd.contains(h));
                let ns = h.neighbors();
                let mut k: usize = 0;
                while k < ns.len()
                    invariant
                        self.wf(),
                        tv == self.tiles_view(),
                        0 <= d,
                        rd == reach(tv, start, d as nat, space_only),
                        rn == reach(tv, start, (d + 1) as nat, space_only),
                        rd.contains(h),
                        forall|h2: Hex| #[trigger] rd.contains(h2) ==> rn.contains(h2),
                        ns@ == crate::hex::spec_neighbors(h),
                        k <= ns@.len(),
                        forall|x: Hex| #[trigger] out@.contains(x) <==> rd.contains(x) || next@.contains(x),
                        forall|j: int| 0 <= j < next@.len() ==> rn.contains(#[trigger] next@[j]) && !rd.contains(next@[j]),
                        forall|j: int| 0 <= j < k ==> step_open(tv, #[trigger] ns@[j], space_only) ==> out@.contains(ns@[j]),
                        i < frontier@.len(),
                        h == frontier@[i as int],
                        forall|j: int, n: Hex| 0 <= j < i && #[trigger] adjacent(frontier@[j], n) && step_open(tv, n, space_only)
                            ==> out@.contains(n),
                    decreases ns@.len() - k,
                {
                    let n = ns[k];
                    if !out.contains(&n) {
                        let open = match self.tile(n) {
                            Some(t) => if space_only {
                                t.space == Space::Empty
                            } else {
                                t.is_open()
                            },
                            None => false,
                        };
                        if open {
                            proof {
                                assert(ns@.contains(n));
                                assert(adjacent(h, n));
                                assert(step_open(tv, n, space_only));
                                lemma_reach_step(tv, start, d as nat, space_only, h, n);
                                assert(rn.contains(n));
                            }
                            let ghost on = next@;
                            out.insert(n);
                            next.push(n);
                            proof {
                                assert forall|x: Hex| #[trigger] out@.contains(x) <==> rd.contains(x) || next@.contains(x) by {
                                    vstd::seq_lib::lemma_seq_contains_after_push(on, n, x);
                                }
                            }
                        }
                    }
                    k = k + 1;
                }
                proof {
                    assert forall|j: int, n: Hex| 0 <= j < i + 1 && #[trigger] adjacent(frontier@[j], n) && step_open(tv, n, space_only)
                        implies out@.contains(n) by {
                        if j == i {
                            let kk = choose|kk: int| 0 <= kk < ns@.len() && ns@[kk] == n;
                        }
                    }
                }
                i = i + 1;
            }
            proof {
                assert forall|h: Hex| #[trigger] out@.contains(h) <==> rn.contains(h) by {
                    if rn.contains(h) && !rd.contains(h) {
                        let g = choose|g: Hex| rd.contains(g) && #[trigger] adjacent(g, h);
                        if !frontier@.contains(g) {
                            assert(d > 0 && reach(tv, start, (d - 1) as nat, space_only).contains(g));
                            assert(rd.contains(h));
                        } else {
                            let j = choose|j: int| 0 <= j < frontier@.len() && frontier@[j] == g;
                            assert(adjacent(frontier@[j], h));
                        }
                    }
                }
                assert(out@ =~= rn);
                assert forall|x: Hex| #[trigger] rn.contains(x) implies next@.contains(x)
                    || (d + 1 > 0 && reach(tv, start, d as nat, space_only).contains(x)) by {
                    assert(out@.contains(x));
                }
            }
            frontier = next;
            d = d + 1;
        }
        proof {
            let target = (if range > 0 { range as int } else { 0int }) as nat;
            if d as nat != target {
                assert(frontier@.len() == 0);
                assert(d > 0);
                lemma_reach_mono(tv, start, (d - 1) as nat, space_only);
                assert(reach(tv, start, d as nat, space_only) =~= reach(tv, start, (d - 1) as nat, space_only));
                lemma_reach_fix(tv, start, (d - 1) as nat, target, space_only);
            }
        }
        out
    }

    /// The hex of search node `v`: node `i` below the tile count is tile `i`, the one after
    /// is the start when it is not a tile.
    spec fn node_hex(&self, start: Hex, v: int) -> Hex {
        if v < self.coords@.len() {
            self.coords@[v]
        } else {
            start
        }
    }

    /// What the path search keeps true: `g` the steps to each node found so far, `came`
    /// the node each was reached from, `open` the nodes still to look at; every node but
    /// `except` that is done has all its open neighbors found.
    spec fn search_inv(
        &self,
        start: Hex,
        s: int,
        gi: int,
        g: Seq<Option<usize>>,
        came: Seq<Option<usize>>,
        open: Set<u64>,
        except: int,
    ) -> bool {
        let n = self.coords@.len() as int;
        let nn = n + 1;
        &&& g.len() == nn
        &&& came.len() == nn
        &&& 0 <= s < nn
        &&& 0 <= gi < n
        &&& s < n ==> self.coords@[s] == start
        &&& s == n ==> !self.coords@.contains(start)
        &&& g[s] == Some(0usize)
        &&& came[s] is None
        &&& count_some(g) <= nn
        &&& forall|v: int| 0 <= v < nn && (#[trigger] g[v]) is Some ==> g[v]->0 < count_some(g)
        &&& forall|k: u64| #[trigger] open.contains(k) ==> k < nn && g[k as int] is Some
        &&& g[gi] is Some ==> open.contains(gi as u64)
        &&& forall|v: int| 0 <= v < nn && v != s && (#[trigger] g[v]) is Some ==> came[v] is Some
        &&& forall|v: int|
            0 <= v < nn && (#[trigger] came[v]) is Some ==> {
                let u = came[v]->0 as int;
                &&& 0 <= u < nn
                &&& g[u] is Some
                &&& g[v] is Some
                &&& g[u]->0 < g[v]->0
                &&& v < n
                &&& adjacent(self.node_hex(start, u), self.coords@[v])
                &&& tile_open(self.tiles@[v])
            }
        &&& forall|v: int, j: int|
            0 <= v < nn && 0 <= j < n && v != except && g[v] is Some && !open.contains(v as u64)
                && #[trigger] adjacent(self.node_hex(start, v), self.coords@[j]) && tile_open(self.tiles@[j])
                ==> g[j] is Some && g[j]->0 <= g[v]->0 + 1
    }

    fn node_hex_exec(&self, start: Hex, v: usize) -> (r: Hex)
        requires
            self.wf(),
        ensures
            r == self.node_hex(start, v as int),
    {
        if v < self.coords.len() {
            self.coords[v]
        } else {
            start
        }
    }

    /// The walk that the links in `came` give back from `goal_ix` to the start.
    fn reconstruct_path(
        &self,
        start: Hex,
        s: Ghost<int>,
        g: &Vec<Option<usize>>,
        came: &Vec<Option<usize>>,
        open: Ghost<Set<u64>>,
        goal_ix: usize,
    ) -> (r: Vec<Hex>)
        requires
            self.wf(),
            self.search_inv(start, s@, goal_ix as int, g@, came@, open@, -1),
            g@[goal_ix as int] is Some,
        ensures
            is_walk(self.tiles_view(), r@, start, self.coords@[goal_ix as int]),
            r@.len() <= g@[goal_ix as int]->0 + 1,
    {
        let ghost tv = self.tiles_view();
        proof {
            lemma_map_of_all(self.coords@, self.tiles@);
        }
        let mut rev: Vec<Hex> = Vec::new();
        rev.push(self.coords[goal_ix]);
        let mut cand: usize = goal_ix;
        loop
            invariant_except_break
                self.wf(),
                tv == self.tiles_view(),
                self.search_inv(start, s@, goal_ix as int, g@, came@, open@, -1),
                cand < g@.len(),
                g@[cand as int] is Some,
                rev@.len() >= 1,
                rev@[0] == self.coords@[goal_ix as int],
                rev@[rev@.len() - 1] == self.node_hex(start, cand as int),
                forall|i: int| 0 <= i < rev@.len() - 1 ==> adjacent(#[trigger] rev@[i + 1], rev@[i]) && step_open(tv, rev@[i], false),
                rev@.len() + g@[cand as int]->0 <= g@[goal_ix as int]->0 + 1,
            ensures
                rev@.len() <= g@[goal_ix as int]->0 + 1,
                self.search_inv(start, s@, goal_ix as int, g@, came@, open@, -1),
                rev@.len() >= 1,
                rev@[0] == self.coords@[goal_ix as int],
                rev@[rev@.len() - 1] == start,
                forall|i: int| 0 <= i < rev@.len() - 1 ==> adjacent(#[trigger] rev@[i + 1], rev@[i]) && step_open(tv, rev@[i], false),
            decreases g@[cand as int]->0,
        {
            match came[cand] {
                Some(prev) => {
                    let ghost old_rev = rev@;
                    let ghost c = cand as int;
                    assert(came@[c] is Some);
                    proof {
                        lemma_map_of_all(self.coords@, self.tiles@);
                        assert(step_open(tv, self.coords@[c], false));
                    }
                    cand = prev;
                    let h = self.node_hex_exec(start, cand);
                    rev.push(h);
                    proof {
                        assert forall|i: int| 0 <= i < rev@.len() - 1 implies adjacent(#[trigger] rev@[i + 1], rev@[i])
                            && step_open(tv, rev@[i], false) by {
                            if i < old_rev.len() - 1 {
                                assert(rev@[i + 1] == old_rev[i + 1]);
                            } else {
                                assert(rev@[i] == self.coords@[c]);
                            }
                        }
                    }
                },
                None => {
                    proof {
                        assert(cand as int == s@);
                    }
                    break;
                },
            }
        }
        let mut out: Vec<Hex> = Vec::new();
        let mut i: usize = rev.len();
        while i > 0
            invariant
                i <= rev@.len(),
                rev@.len() >= 1,
                out@.len() == rev@.len() - i,
                forall|j: int| 0 <= j < out@.len() ==> #[trigger] out@[j] == rev@[rev@.len() - 1 - j],
            decreases i,
        {
            i = i - 1;
            out.push(rev[i]);
        }
        proof {
            let m = rev@.len() as int;
            assert forall|k: int| 0 <= k < out@.len() - 1 implies #[trigger] step_ok(tv, out@, k) by {
                assert(out@[k] == rev@[m - 1 - k]);
                assert(out@[k + 1] == rev@[m - 2 - k]);
                assert(rev@[(m - 2 - k) + 1] == rev@[m - 1 - k]);
            }
        }
        out
    }

    /// The estimate of a search through node `v`: the steps to it found so far and its
    /// distance to the goal.
    spec fn fval(&self, start: Hex, goal: Hex, g: Seq<Option<usize>>, v: int) -> int {
        g[v]->0 + hex_distance(self.node_hex(start, v), goal)
    }

    /// While the goal is still to be looked at, a walk from the start to it of `m` steps
    /// either passes a node still to be looked at whose estimate is at most `m`, or, up to
    /// its `i`-th hex, runs over nodes that are done, each found within as many steps.
    #[verifier::spinoff_prover]
    #[verifier::rlimit(40)]
    proof fn lemma_frontier(
        &self,
        start: Hex,
        goal: Hex,
        s: int,
        gi: int,
        g: Seq<Option<usize>>,
        came: Seq<Option<usize>>,
        open: Set<u64>,
        q: Seq<Hex>,
        i: int,
    )
        requires
            self.wf(),
            start.interior(),
            self.search_inv(start, s, gi, g, came, open, -1),
            self.coords@[gi] == goal,
            is_walk(self.tiles_view(), q, start, goal),
            0 <= i < q.len(),
            forall|k: u64| #[trigger] open.contains(k) ==> self.fval(start, goal, g, k as int) > q.len() - 1,
        ensures
            exists|v: int|
                0 <= v < g.len() && (#[trigger] g[v]) is Some && !open.contains(v as u64) && self.node_hex(start, v)
                    == q[i] && g[v]->0 <= i,
        decreases i,
    {
        self.lemma_walk_tail(q, start, goal, i);
        if i == 0 {
            assert(self.node_hex(start, s) == start);
            if open.contains(s as u64) {
                assert(self.fval(start, goal, g, s) <= q.len() - 1);
            }
            assert(g[s] is Some && !open.contains(s as u64) && self.node_hex(start, s) == q[0] && g[s]->0 <= 0);
        } else {
            self.lemma_frontier(start, goal, s, gi, g, came, open, q, i - 1);
            let v = choose|v: int|
                0 <= v < g.len() && (#[trigger] g[v]) is Some && !open.contains(v as u64) && self.node_hex(start, v)
                    == q[i - 1] && g[v]->0 <= i - 1;
            assert(step_ok(self.tiles_view(), q, i - 1));
            lemma_map_of_all(self.coords@, self.tiles@);
            let j = choose|j: int| 0 <= j < self.coords@.len() && self.coords@[j] == q[i];
            assert(self.tiles_view()[q[i]] == self.tiles@[j]);
            assert(adjacent(self.node_hex(start, v), self.coords@[j]));
            assert(g[j] is Some && g[j]->0 <= g[v]->0 + 1);
            assert(self.node_hex(start, j) == q[i]);
            if open.contains(j as u64) {
                assert(self.fval(start, goal, g, j) <= q.len() - 1);
            }
        }
    }

    /// When the goal has the least estimate of the nodes still to be looked at, the steps
    /// found to it are at most those of any walk from the start to it.
    proof fn lemma_goal_shortest(
        &self,
        start: Hex,
        goal: Hex,
        s: int,
        gi: int,
        g: Seq<Option<usize>>,
        came: Seq<Option<usize>>,
        open: Set<u64>,
    )
        requires
            self.wf(),
            start.interior(),
            self.search_inv(start, s, gi, g, came, open, -1),
            self.coords@[gi] == goal,
            open.contains(gi as u64),
            forall|k: u64| #[trigger] open.contains(k) ==> self.fval(start, goal, g, k as int) >= self.fval(start, goal, g, gi),
        ensures
            forall|q: Seq<Hex>| #[trigger] is_walk(self.tiles_view(), q, start, goal) ==> g[gi]->0 <= q.len() - 1,
    {
        crate::hex::law_distance_symmetric(goal, goal);
        assert(self.fval(start, goal, g, gi) == g[gi]->0);
        assert forall|q: Seq<Hex>| #[trigger] is_walk(self.tiles_view(), q, start, goal) implies g[gi]->0 <= q.len() - 1 by {
            let m = q.len() - 1;
            if forall|k: u64| #[trigger] open.contains(k) ==> self.fval(start, goal, g, k as int) > m {
                self.lemma_frontier(start, goal, s, gi, g, came, open, q, m);
                let v = choose|v: int|
                    0 <= v < g.len() && (#[trigger] g[v]) is Some && !open.contains(v as u64) && self.node_hex(start, v)
                        == q[m] && g[v]->0 <= m;
                if v < self.coords@.len() {
                    assert(self.coords@[v] == self.coords@[gi]);
                    assert(v == gi);
                } else {
                    assert(v == s);
                    assert(self.coords@.contains(goal));
                }
                assert(false);
            } else {
                let k = choose|k: u64| #[trigger] open.contains(k) && self.fval(start, goal, g, k as int) <= m;
            }
        }
    }

    /// From step `i` of a walk to its end, the distance left is at most the steps left.
    proof fn lemma_walk_tail(&self, q: Seq<Hex>, start: Hex, goal: Hex, i: int)
        requires
            self.wf(),
            start.interior(),
            is_walk(self.tiles_view(), q, start, goal),
            0 <= i < q.len(),
        ensures
            crate::hex::hex_distance(q[i], goal) <= q.len() - 1 - i,
        decreases q.len() - i,
    {
        if i == q.len() - 1 {
            crate::hex::law_distance_symmetric(goal, goal);
        } else {
            self.lemma_walk_tail(q, start, goal, i + 1);
            assert(step_ok(self.tiles_view(), q, i));
            self.lemma_wf();
            if i > 0 {
                assert(step_ok(self.tiles_view(), q, i - 1));
            }
            crate::hex::law_neighbors_are_adjacent(q[i], q[i + 1]);
            crate::hex::law_distance_triangle(q[i], q[i + 1], goal);
        }
    }

    /// Every hex of a walk from the start was found by a search that has run out of nodes.
    proof fn lemma_walk_found(
        &self,
        start: Hex,
        s: int,
        gi: int,
        g: Seq<Option<usize>>,
        came: Seq<Option<usize>>,
        open: Set<u64>,
        p: Seq<Hex>,
        to: Hex,
        i: int,
    )
        requires
            self.wf(),
            self.search_inv(start, s, gi, g, came, open, -1),
            open == Set::<u64>::empty(),
            is_walk(self.tiles_view(), p, start, to),
            0 <= i < p.len(),
        ensures
            exists|v: int|
                0 <= v < g.len() && (#[trigger] g[v]) is Some && self.node_hex(start, v) == p[i] && (i > 0 ==> v
                    < self.coords@.len()),
        decreases i,
    {
        if i == 0 {
            assert(g[s] is Some && self.node_hex(start, s) == p[0]);
        } else {
            self.lemma_walk_found(start, s, gi, g, came, open, p, to, i - 1);
            let v = choose|v: int|
                0 <= v < g.len() && (#[trigger] g[v]) is Some && self.node_hex(start, v) == p[i - 1] && (i - 1 > 0
                    ==> v < self.coords@.len());
            assert(step_ok(self.tiles_view(), p, i - 1));
            lemma_map_of_all(self.coords@, self.tiles@);
            let j = choose|j: int| 0 <= j < self.coords@.len() && self.coords@[j] == p[i];
            assert(self.tiles_view()[p[i]] == self.tiles@[j]);
            assert(adjacent(self.node_hex(start, v), self.coords@[j]));
            assert(!open.contains(v as u64));
            assert(g[j] is Some);
            assert(self.node_hex(start, j) == p[i]);
        }
    }

    /// The first node of `walk` whose estimate is the least.
    fn select_best(&self, start: Hex, goal: Hex, g: &Vec<Option<usize>>, walk: &Vec<u64>) -> (best: usize)
        requires
            self.wf(),
            walk@.len() > 0,
            g@.len() == self.coords@.len() + 1,
            forall|k: int| 0 <= k < walk@.len() ==> (#[trigger] walk@[k]) < g@.len() && g@[walk@[k] as int] is Some
                && g@[walk@[k] as int]->0 < g@.len(),
        ensures
            best < g@.len(),
            exists|k: int| 0 <= k < walk@.len() && walk@[k] == best as u64
                && forall|j: int| 0 <= j < k ==> self.fval(start, goal, g@, (#[trigger] walk@[j]) as int) > self.fval(start, goal, g@, best as int),
            forall|k: int| 0 <= k < walk@.len() ==> self.fval(start, goal, g@, (#[trigger] walk@[k]) as int) >= self.fval(start, goal, g@, best as int),
    {
        proof {
            self.lemma_wf();
            assert(walk@[0] < g@.len());
        }
        let mut best: usize = walk[0] as usize;
        let gb = match g[best] {
            Some(x) => x,
            None => {
                proof {
                    assert(false);
                }
                0
            },
        };
        let mut best_f: i64 = gb as i64 + self.node_hex_exec(start, best).distance_to(goal);
        let mut w: usize = 1;
        let ghost mut bk: int = 0;
        while w < walk.len()
            invariant
                self.wf(),
                g@.len() == self.coords@.len() + 1,
                forall|k: int| 0 <= k < walk@.len() ==> (#[trigger] walk@[k]) < g@.len() && g@[walk@[k] as int] is Some
                    && g@[walk@[k] as int]->0 < g@.len(),
                best < g@.len(),
                0 <= bk < w,
                walk@[bk] == best as u64,
                forall|j: int| 0 <= j < bk ==> self.fval(start, goal, g@, (#[trigger] walk@[j]) as int) > best_f,
                1 <= w <= walk@.len(),
                best_f == self.fval(start, goal, g@, best as int),
                forall|k: int| 0 <= k < w ==> self.fval(start, goal, g@, (#[trigger] walk@[k]) as int) >= best_f,
            decreases walk@.len() - w,
        {
            proof {
                assert(walk@[w as int] < g@.len());
            }
            let v = walk[w] as usize;
            let gv = match g[v] {
                Some(x) => x,
                None => {
                    proof {
                        assert(false);
                    }
                    0
                },
            };
            let fv: i64 = gv as i64 + self.node_hex_exec(start, v).distance_to(goal);
            if fv < best_f {
                best = v;
                best_f = fv;
                proof {
                    bk = w as int;
                }
            }
            w = w + 1;
        }
        best
    }

    /// A shortest-path search from `start` to the tile `goal`, stepping onto open tiles
    /// only. Among nodes of equal estimate, the one looked at first is the first that the
    /// open set's walk yields; that walk's order is left open, so which of several
    /// shortest walks comes back is too.
    fn a_star(&self, start: Hex, goal: Hex) -> (r: Option<Vec<Hex>>)
        requires
            self.wf(),
            start.interior(),
            self.tiles_view().contains_key(goal),
        ensures
            r matches Some(p) ==> is_walk(self.tiles_view(), p@, start, goal),
            r matches Some(p) ==> forall|q: Seq<Hex>| #[trigger] is_walk(self.tiles_view(), q, start, goal) ==> p@.len() <= q.len(),
            r is None ==> !reachable(self.tiles_view(), start, goal),
    {
        proof {
            lemma_map_of_all(self.coords@, self.tiles@);
            self.lemma_wf();
        }
        let n = self.coords.len();
        let nn = n + 1;
        let s: usize = match self.tile_index(start) {
            Some(i) => i,
            None => n,
        };
        let gi: usize = match self.tile_index(goal) {
            Some(i) => i,
            None => {
                return None;
            },
        };
        let mut g: Vec<Option<usize>> = Vec::new();
        let mut came: Vec<Option<usize>> = Vec::new();
        let mut i: usize = 0;
        while i < nn
            invariant
                nn == n + 1,
                i <= nn,
                g@.len() == i,
                came@.len() == i,
                forall|j: int| 0 <= j < i ==> #[trigger] g@[j] is None && came@[j] is None,
            decreases nn - i,
        {
            g.push(None);
            came.push(None);
            i = i + 1;
        }
        proof {
            lemma_count_none(g@);
            lemma_count_update(g@, s as int, Some(0usize));
        }
        g.set(s, Some(0));
        let mut open = open_set_new();
        open_set_insert(&mut open, s as u64);
        proof {
            assert(count_some(g@) == 1);
            assert forall|v: int, j: int|
                0 <= v < nn && 0 <= j < n && v != -1 && g@[v] is Some && !open_items(open).contains(v as u64)
                    && #[trigger] adjacent(self.node_hex(start, v), self.coords@[j]) && tile_open(self.tiles@[j])
                    implies g@[j] is Some by {
                assert(v == s);
            }
            assert(self.search_inv(start, s as int, gi as int, g@, came@, open_items(open), -1));
        }
        while !open_set_is_empty(&open)
            invariant
                self.wf(),
                start.interior(),
                nn == n + 1,
                n == self.coords@.len(),
                self.coords@[gi as int] == goal,
                self.search_inv(start, s as int, gi as int, g@, came@, open_items(open), -1),
            decreases pot(g@, open_items(open), nn as int, nn as int),
        {
            let ghost pot0 = pot(g@, open_items(open), nn as int, nn as int);
            let walk = open_set_walk(&open);
            proof {
                if walk@.len() == 0 {
                    assert(walk@.to_set() =~= Set::<u64>::empty());
                }
                assert(walk@.contains(walk@[0]));
                assert(walk@.to_set().contains(walk@[0]));
                assert(open_items(open).contains(walk@[0]));
            }
            proof {
                assert forall|k: int| 0 <= k < walk@.len() implies (#[trigger] walk@[k]) < nn && g@[walk@[k] as int] is Some
                    && g@[walk@[k] as int]->0 < nn by {
                    assert(walk@.contains(walk@[k]));
                    assert(walk@.to_set().contains(walk@[k]));
                    assert(open_items(open).contains(walk@[k]));
                }
            }
            let best = self.select_best(start, goal, &g, &walk);
            proof {
                let k = choose|k: int| 0 <= k < walk@.len() && walk@[k] == best as u64;
                assert(walk@.contains(walk@[k]));
                assert(walk@.to_set().contains(walk@[k]));
                assert(open_items(open).contains(best as u64));
            }
            let current = best;
            if current == gi {
                proof {
                    assert forall|k: u64| #[trigger] open_items(open).contains(k) implies self.fval(start, goal, g@, k as int)
                        >= self.fval(start, goal, g@, gi as int) by {
                        assert(walk@.to_set().contains(k));
                        let idx = choose|idx: int| 0 <= idx < walk@.len() && walk@[idx] == k;
                        assert(self.fval(start, goal, g@, walk@[idx] as int) >= self.fval(start, goal, g@, best as int));
                    }
                    self.lemma_goal_shortest(start, goal, s as int, gi as int, g@, came@, open_items(open));
                }
                return Some(self.reconstruct_path(start, Ghost(s as int), &g, &came, Ghost(open_items(open)), gi));
            }
            let gc: usize = match g[current] {
                Some(x) => x,
                None => {
                    proof {
                        assert(false);
                    }
                    0
                },
            };
            let ghost open_before = open_items(open);
            open_set_remove(&mut open, current as u64);
            proof {
                lemma_pot_update(g@, open_before, g@, open_items(open), nn as int, current as int, nn as int);
                assert(phi(g@, open_items(open), nn as int, current as int) + 1 == phi(g@, open_before, nn as int, current as int));
            }
            let cur_hex = self.node_hex_exec(start, current);
            proof {
                if current < n {
                    assert(self.coords@.contains(cur_hex));
                }
            }
            let ns = cur_hex.neighbors();
            let mut k: usize = 0;
            while k < ns.len()
                invariant
                    self.wf(),
                    nn == n + 1,
                    n == self.coords@.len(),
                    current < nn,
                    current != gi,
                    cur_hex == self.node_hex(start, current as int),
                    ns@ == crate::hex::spec_neighbors(cur_hex),
                    forall|j: int| 0 <= j < ns@.len() ==> crate::hex::hex_distance(cur_hex, #[trigger] ns@[j]) == 1,
                    k <= ns@.len(),
                    g@[current as int] == Some(gc),
                    !open_items(open).contains(current as u64),
                    self.search_inv(start, s as int, gi as int, g@, came@, open_items(open), current as int),
                    pot(g@, open_items(open), nn as int, nn as int) < pot0,
                    forall|kk: int, j: int| #![trigger ns@[kk], self.coords@[j]] 0 <= kk < k && 0 <= j < n && self.coords@[j] == ns@[kk]
                        && tile_open(self.tiles@[j]) ==> g@[j] is Some && g@[j]->0 <= gc + 1,
                decreases ns@.len() - k,
            {
                let nb = ns[k];
                match self.tile_index(nb) {
                    None => {},
                    Some(j) => {
                        if self.tiles[j].is_open() {
                            let tentative = gc + 1;
                            let better = match g[j] {
                                None => true,
                                Some(x) => tentative < x,
                            };
                            if better {
                                let ghost g0 = g@;
                                let ghost c0 = came@;
                                let ghost o0 = open_items(open);
                                proof {
                                    assert(j != current) by {
                                        assert(crate::hex::hex_distance(cur_hex, nb) == 1);
                                    }
                                    assert(ns@.contains(nb));
                                    assert(adjacent(cur_hex, self.coords@[j as int]));
                                    if j == s {
                                        assert(false);
                                    }
                                    lemma_count_update(g0, j as int, Some(tentative));
                                }
                                came.set(j, Some(current));
                                g.set(j, Some(tentative));
                                open_set_insert(&mut open, j as u64);
                                proof {
                                    lemma_pot_update(g0, o0, g@, open_items(open), nn as int, j as int, nn as int);
                                    let cnt0 = count_some(g0);
                                    assert(gc < cnt0);
                                    lemma_count_le(g0);
                                    if g0[j as int] is None {
                                        lemma_count_le(g@);
                                        assert(cnt0 < nn);
                                    }
                                    assert(phi(g@, open_items(open), nn as int, j as int) < phi(g0, o0, nn as int, j as int));
                                    assert forall|v: int| 0 <= v < nn && (#[trigger] came@[v]) is Some implies {
                                        let u = came@[v]->0 as int;
                                        &&& 0 <= u < nn
                                        &&& g@[u] is Some
                                        &&& g@[v] is Some
                                        &&& g@[u]->0 < g@[v]->0
                                        &&& v < n
                                        &&& adjacent(self.node_hex(start, u), self.coords@[v])
                                        &&& tile_open(self.tiles@[v])
                                    } by {
                                        if v != j {
                                            assert(c0[v] is Some);
                                        }
                                    }
                                    assert forall|v: int| 0 <= v < nn && (#[trigger] g@[v]) is Some implies g@[v]->0 < count_some(g@) by {
                                        if v != j {
                                            assert(g0[v] is Some);
                                        }
                                    }
                                    assert forall|v: int| 0 <= v < nn && v != s && (#[trigger] g@[v]) is Some implies came@[v] is Some by {
                                        if v != j {
                                            assert(g0[v] is Some);
                                        }
                                    }
                                    assert forall|q: u64| #[trigger] open_items(open).contains(q) implies q < nn && g@[q as int] is Some by {
                                        if q != j as u64 {
                                            assert(o0.contains(q));
                                        }
                                    }
                                    assert forall|v: int, jj: int|
                                        0 <= v < nn && 0 <= jj < n && v != current && g@[v] is Some && !open_items(open).contains(v as u64)
                                            && #[trigger] adjacent(self.node_hex(start, v), self.coords@[jj]) && tile_open(self.tiles@[jj])
                                            implies g@[jj] is Some by {
                                        if jj != j {
                                            assert(v != j);
                                            assert(g0[v] is Some);
                                            assert(!o0.contains(v as u64));
                                            assert(g0[jj] is Some);
                                        }
                                    }
                                }
                            }
                        }
                    },
                }
                proof {
                    assert forall|kk: int, jj: int| #![trigger ns@[kk], self.coords@[jj]] 0 <= kk < k + 1 && 0 <= jj < n && self.coords@[jj] == ns@[kk]
                        && tile_open(self.tiles@[jj]) implies g@[jj] is Some && g@[jj]->0 <= gc + 1 by {
                        if kk == k {
                            assert(self.coords@.contains(nb));
                        }
                    }
                }
                k = k + 1;
            }
            proof {
                assert forall|v: int, jj: int|
                    0 <= v < nn && 0 <= jj < n && v != -1 && g@[v] is Some && !open_items(open).contains(v as u64)
                        && #[trigger] adjacent(self.node_hex(start, v), self.coords@[jj]) && tile_open(self.tiles@[jj])
                        implies g@[jj] is Some by {
                    if v == current {
                        let kk = choose|kk: int| 0 <= kk < ns@.len() && ns@[kk] == self.coords@[jj];
                    }
                }
            }
        }
        proof {
            if reachable(self.tiles_view(), start, goal) {
                let p = choose|p: Seq<Hex>| #[trigger] is_walk(self.tiles_view(), p, start, goal);
                self.lemma_walk_found(start, s as int, gi as int, g@, came@, open_items(open), p, goal, p.len() - 1);
                let v = choose|v: int|
                    0 <= v < g@.len() && (#[trigger] g@[v]) is Some && self.node_hex(start, v) == p[p.len() - 1] && (p.len() - 1 > 0
                        ==> v < self.coords@.len());
                if v < n {
                    assert(v == gi);
                } else {
                    assert(v == s);
                    assert(self.coords@.contains(goal));
                }
                assert(open_items(open).contains(gi as u64));
            }
        }
        None
    }

    /// A shortest walk from `from` to `to` over open tiles, found by `a_star`.
    pub fn path_to(&self, from: Hex, to: Hex) -> (r: Result<Vec<Hex>, Error>)
        requires
            self.wf(),
            from.interior(),
        ensures
            !self.tiles_view().contains_key(to) ==> r matches Err(Error::OutOfBounds),
            self.tiles_view().contains_key(to) && !tile_open(self.tiles_view()[to]) ==> r matches Err(
                Error::Obstructed,
            ),
            self.tiles_view().contains_key(to) && tile_open(self.tiles_view()[to]) ==> {
                &&& r is Ok <==> reachable(self.tiles_view(), from, to)
                &&& r is Err ==> r matches Err(Error::Obstructed)
            },
            r matches Ok(p) ==> is_walk(self.tiles_view(), p@, from, to),
            r matches Ok(p) ==> forall|q: Seq<Hex>| #[trigger] is_walk(self.tiles_view(), q, from, to) ==> p@.len() <= q.len(),
    {
        let to_tile = match self.tile(to) {
            Some(t) => t,
            None => return Err(Error::OutOfBounds),
        };
        if !to_tile.is_open() {
            return Err(Error::Obstructed);
        }
        let path = match self.a_star(from, to) {
            Some(p) => p,
            None => return Err(Error::Obstructed),
        };
        let mut i: usize = 1;
        while i < path.len()
            invariant
                self.wf(),
                is_walk(self.tiles_view(), path@, from, to),
                1 <= i,
            decreases path@.len() - i,
        {
            proof {
                assert(step_ok(self.tiles_view(), path@, i - 1));
            }
            let tile = match self.tile(path[i]) {
                Some(t) => t,
                None => return Err(Error::OutOfBounds),
            };
            if !tile.is_open() {
                return Err(Error::Obstructed);
            }
            i = i + 1;
        }
        Ok(path)
    }

    fn all_clear(&self, between: &[Hex], id: Id<Creature>) -> (r: bool)
        requires
            self.wf(),
        ensures
            r == line_clear(self.tiles_view(), between@, id),
    {
        let mut i: usize = 0;
        while i < between.len()
            invariant
                self.wf(),
                i <= between@.len(),
                forall|j: int| 0 <= j < i ==> #[trigger] hex_clear(self.tiles_view(), between@[j], id),
            decreases between@.len() - i,
        {
            match self.tile(between[i]) {
                None => {},
                Some(t) => {
                    match t.space {
                        Space::Wall => {
                            proof {
                                assert(!hex_clear(self.tiles_view(), between@[i as int], id));
                            }
                            return false;
                        },
                        Space::Empty => {},
                    }
                    match t.creature {
                        Some(cid) => {
                            if !same_id(&cid, &id) {
                                proof {
                                    assert(!hex_clear(self.tiles_view(), between@[i as int], id));
                                }
                                return false;
                            }
                        },
                        None => {},
                    }
                },
            }
            i = i + 1;
        }
        true
    }

    /// Whether creature `id` can see along one of the two lines of `line`: nothing but
    /// itself stands on them and no wall.
    pub fn can_see(&self, line: &SightLine, id: Id<Creature>) -> (r: bool)
        requires
            self.wf(),
        ensures
            r == sees_along(self.tiles_view(), *line, id),
    {
        self.all_clear(line.between.as_slice(), id) || self.all_clear(line.between_alt.as_slice(), id)
    }

    /// The hexes that creature `id` standing at `start` can see: `start`, and the far end of
    /// each line in `lines` that is empty ground and can be seen along.
    pub fn los_from(&self, start: Hex, id: Id<Creature>, lines: &[SightLine]) -> (r: VecSet<Hex>)
        requires
            self.wf(),
        ensures
            r@ == seen_from(self.tiles_view(), start, id, lines@),
    {
        let mut out: VecSet<Hex> = VecSet::new();
        out.insert(start);
        let mut i: usize = 0;
        while i < lines.len()
            invariant
                self.wf(),
                i <= lines@.len(),
                out@ == seen_from(self.tiles_view(), start, id, lines@.take(i as int)),
            decreases lines@.len() - i,
        {
            let line = &lines[i];
            let ghost tk = lines@.take(i as int);
            let ghost old_out = out@;
            let ghost sees_i = line_sees(self.tiles_view(), start, id, lines@[i as int]);
            proof {
                assert(lines@.take(i + 1) =~= tk.push(lines@[i as int]));
            }
            if line.to != start {
                match self.tile(line.to) {
                    Some(t) => {
                        match t.space {
                            Space::Empty => {
                                if self.can_see(line, id) {
                                    out.insert(line.to);
                                }
                            },
                            Space::Wall => {},
                        }
                    },
                    None => {},
                }
            }
            proof {
                let tv = self.tiles_view();
                let nx = lines@.take(i + 1);
                assert(sees_i ==> out@ == old_out.insert(lines@[i as int].to));
                assert(!sees_i ==> out@ == old_out);
                assert forall|h: Hex| #[trigger] out@.contains(h) <==> seen_from(tv, start, id, nx).contains(h) by {
                    if sees_i && h == lines@[i as int].to {
                        assert(nx[i as int] == lines@[i as int]);
                        assert(line_sees(tv, start, id, nx[i as int]));
                    }
                    if h != start && (exists|k: int| 0 <= k < nx.len() && #[trigger] line_sees(tv, start, id, nx[k]) && nx[k].to == h) {
                        let k = choose|k: int| 0 <= k < nx.len() && #[trigger] line_sees(tv, start, id, nx[k]) && nx[k].to == h;
                        if k < i {
                            assert(tk[k] == nx[k]);
                        }
                    }
                    if h != start && (exists|k: int| 0 <= k < tk.len() && #[trigger] line_sees(tv, start, id, tk[k]) && tk[k].to == h) {
                        let k = choose|k: int| 0 <= k < tk.len() && #[trigger] line_sees(tv, start, id, tk[k]) && tk[k].to == h;
                        assert(nx[k] == tk[k]);
                    }
                }
                assert(out@ =~= seen_from(tv, start, id, nx));
            }
            i = i + 1;
        }
        proof {
            assert(lines@.take(lines@.len() as int) =~= lines@);
        }
        out
    }

    /// What creature `id` can see from where it stands, if it is on the map.
    pub fn los_of(&self, id: Id<Creature>, lines: &[SightLine]) -> (r: Option<VecSet<Hex>>)
        requires
            self.wf(),
        ensures
            !self.places_view().contains_key(id@) ==> r is None,
            self.places_view().contains_key(id@) ==> (r matches Some(v) && v@ == seen_from(
                self.tiles_view(),
                self.places_view()[id@],
                id,
                lines@,
            )),
    {
        match self.creature_hex(id) {
            Some(start) => Some(self.los_from(start, id, lines)),
            None => None,
        }
    }
}

/// Every step of a walk is one hex long and ends on an open tile.
pub proof fn law_walk_steps(tiles: Map<Hex, Tile>, p: Seq<Hex>, from: Hex, to: Hex, i: int)
    requires
        is_walk(tiles, p, from, to),
        0 <= i < p.len() - 1,
        p[i].interior(),
    ensures
        hex_distance(p[i], p[i + 1]) == 1,
        tiles.contains_key(p[i + 1]) && tile_open(tiles[p[i + 1]]),
{
    assert(step_ok(tiles, p, i));
    crate::hex::law_neighbors_are_adjacent(p[i], p[i + 1]);
}

/// More steps never reach fewer hexes.
pub proof fn law_reach_grows(tiles: Map<Hex, Tile>, start: Hex, k: nat, m: nat, space_only: bool)
    requires
        k <= m,
    ensures
        reach(tiles, start, k, space_only).subset_of(reach(tiles, start, m, space_only)),
    decreases m - k,
{
    if k < m {
        law_reach_grows(tiles, start, k, (m - 1) as nat, space_only);
        lemma_reach_mono(tiles, start, (m - 1) as nat, space_only);
    }
}

/// The hexes `range_from` gives for a range of `range` are those reached in this many steps.
pub open spec fn range_steps(range: i32) -> nat {
    (if range > 0 { range as int } else { 0int }) as nat
}

/// A longer range never reaches fewer hexes, whether creatures block the way or not.
pub proof fn law_range_grows(tiles: Map<Hex, Tile>, start: Hex, r1: i32, r2: i32, space_only: bool)
    requires
        r1 <= r2,
    ensures
        reach(tiles, start, range_steps(r1), space_only).subset_of(reach(tiles, start, range_steps(r2), space_only)),
{
    law_reach_grows(tiles, start, range_steps(r1), range_steps(r2), space_only);
}

/// The hexes reached over open ground, where nobody stands in the way, are among those
/// reached over empty ground when creatures are not counted.
pub proof fn law_open_within_empty(tiles: Map<Hex, Tile>, start: Hex, k: nat)
    ensures
        reach(tiles, start, k, false).subset_of(reach(tiles, start, k, true)),
    decreases k,
{
    if k > 0 {
        let k1 = (k - 1) as nat;
        law_open_within_empty(tiles, start, k1);
        let pf = reach(tiles, start, k1, false);
        let pt = reach(tiles, start, k1, true);
        assert forall|n: Hex| reach(tiles, start, k, false).contains(n) implies reach(tiles, start, k, true).contains(n) by {
            if !pf.contains(n) {
                let h = choose|h: Hex| pf.contains(h) && #[trigger] adjacent(h, n);
                assert(pt.contains(h));
            }
        }
    }
}

} // verus!
