use parts_unknown::boundary::find_boundary;
use parts_unknown::hex::{Direction, Hex};
use parts_unknown::id_map::IdMap;
use parts_unknown::map::{SightLine, Space, TileMap};
use parts_unknown::error::Error;
use parts_unknown::creature::Creature;

fn h(x: i32, y: i32) -> Hex {
    Hex { x, y }
}

fn ids(n: usize) -> Vec<parts_unknown::id_map::Id<Creature>> {
    let mut cs: IdMap<Creature> = IdMap::new();
    let mut out = vec![];
    for _ in 0..n {
        out.push(cs.add(parts_unknown::library::npc::Monopod::creature()));
    }
    out
}

#[test]
fn distance_is_steps_and_symmetric() {
    assert_eq!(h(0, 0).distance_to(h(2, -1)), 2);
    assert_eq!(h(2, -1).distance_to(h(0, 0)), 2);
    assert_eq!(h(-4, 1).distance_to(h(4, -1)), 8);
    assert_eq!(h(3, 3).distance_to(h(3, 3)), 0);
}

#[test]
fn neighbors_in_direction_order() {
    let ns = h(0, 0).neighbors();
    assert_eq!(ns, vec![h(1, -1), h(1, 0), h(0, 1), h(-1, 1), h(-1, 0), h(0, -1)]);
    for n in &ns {
        assert_eq!(h(0, 0).distance_to(*n), 1);
    }
    assert_eq!(h(2, 3).step(Direction::ZY), h(2, 2));
}

#[test]
fn area_holds_the_hexes_within_radius() {
    assert_eq!(h(0, 0).area(0), vec![h(0, 0)]);
    assert_eq!(h(0, 0).area(1).len(), 7);
    assert_eq!(h(0, 0).area(5).len(), 91);
    assert!(h(0, 0).area(-1).is_empty());
}

#[test]
fn new_map_walls() {
    let m = TileMap::new();
    let (coords, tiles) = m.tiles();
    assert_eq!(coords.len(), 91);
    assert_eq!(tiles.len(), 91);
    assert_eq!(m.tile(h(5, 0)).unwrap().space, Space::Wall);
    assert_eq!(m.tile(h(2, -2)).unwrap().space, Space::Wall);
    assert_eq!(m.tile(h(0, 2)).unwrap().space, Space::Wall);
    assert_eq!(m.tile(h(1, 1)).unwrap().space, Space::Empty);
    assert_eq!(m.tile(h(0, 0)).unwrap().space, Space::Empty);
    assert!(m.tile(h(6, 0)).is_none());
    assert!(m.creatures().is_empty());
}

#[test]
fn place_and_move() {
    let mut m = TileMap::new();
    let cs = ids(2);
    assert!(matches!(m.place_at(cs[0], h(9, 9)), Err(Error::OutOfBounds)));
    assert!(m.place_at(cs[0], h(1, 0)).is_ok());
    assert!(matches!(m.place_at(cs[1], h(1, 0)), Err(Error::Obstructed)));
    assert!(matches!(m.place_at(cs[0], h(0, 1)), Err(Error::Obstructed)));
    assert_eq!(m.creature_hex(cs[0]), Some(h(1, 0)));
    assert_eq!(m.tile(h(1, 0)).unwrap().creature, Some(cs[0]));
    assert!(matches!(m.move_to(cs[1], h(0, 0)), Err(Error::NoSuchCreature)));
    assert!(matches!(m.move_to(cs[0], h(8, 0)), Err(Error::OutOfBounds)));
    assert!(m.move_to(cs[0], h(0, 0)).is_ok());
    assert_eq!(m.creature_hex(cs[0]), Some(h(0, 0)));
    assert!(m.tile(h(1, 0)).unwrap().creature.is_none());
    assert_eq!(m.tile(h(0, 0)).unwrap().creature, Some(cs[0]));
}

#[test]
fn move_to_own_hex_clears_the_tile() {
    let mut m = TileMap::new();
    let cs = ids(1);
    m.place_at(cs[0], h(1, 0)).unwrap();
    m.move_to(cs[0], h(1, 0)).unwrap();
    assert_eq!(m.creature_hex(cs[0]), Some(h(1, 0)));
    assert!(m.tile(h(1, 0)).unwrap().creature.is_none());
}

#[test]
fn range_from_counts_steps_over_open_tiles() {
    let mut m = TileMap::new();
    let r0 = m.range_from(h(0, 0), 0, false);
    assert_eq!(r0.items(), &[h(0, 0)]);
    let r1 = m.range_from(h(0, 0), 1, false);
    assert_eq!(r1.len(), 7);
    // Six of the twelve hexes at distance 2 are pillars.
    let r2 = m.range_from(h(0, 0), 2, true);
    assert_eq!(r2.len(), 7 + 12 - 6);
    let cs = ids(1);
    m.place_at(cs[0], h(1, 0)).unwrap();
    let open = m.range_from(h(0, 0), 1, false);
    assert_eq!(open.len(), 6);
    let ground = m.range_from(h(0, 0), 1, true);
    assert_eq!(ground.len(), 7);
}

#[test]
fn path_to_walks_open_tiles() {
    let m = TileMap::new();
    // The pillar at (2, 0) makes the three-step line one step longer.
    let p = m.path_to(h(0, 0), h(3, 0)).unwrap();
    assert_eq!(p.len(), 5);
    assert_eq!(p[0], h(0, 0));
    assert_eq!(p[4], h(3, 0));
    let q = m.path_to(h(0, 0), h(3, -1)).unwrap();
    assert_eq!(q.len(), 4);
    for w in p.windows(2) {
        assert_eq!(w[0].distance_to(w[1]), 1);
        assert!(m.tile(w[1]).unwrap().is_open());
    }
    assert!(matches!(m.path_to(h(0, 0), h(7, 0)), Err(Error::OutOfBounds)));
    assert!(matches!(m.path_to(h(0, 0), h(5, 0)), Err(Error::Obstructed)));
    assert_eq!(m.path_to(h(1, 1), h(1, 1)).unwrap(), vec![h(1, 1)]);
}

#[test]
fn path_to_an_enclosed_hex_is_obstructed() {
    let mut m = TileMap::new();
    let cs = ids(6);
    let ring = h(3, -1).neighbors();
    for (i, n) in ring.iter().enumerate() {
        m.place_at(cs[i], *n).unwrap();
    }
    assert!(matches!(m.path_to(h(0, 0), h(3, -1)), Err(Error::Obstructed)));
}

#[test]
fn sight_lines_and_shade() {
    let mut m = TileMap::new();
    let cs = ids(2);
    m.place_at(cs[0], h(0, 0)).unwrap();
    m.place_at(cs[1], h(1, 0)).unwrap();
    let blocked = SightLine { to: h(2, -1), between: vec![h(1, 0)], between_alt: vec![h(1, 0)] };
    let clear = SightLine { to: h(0, 1), between: vec![], between_alt: vec![] };
    let around = SightLine { to: h(-1, 2), between: vec![h(-2, 0)], between_alt: vec![h(-1, 1)] };
    let wall = SightLine { to: h(2, -2), between: vec![], between_alt: vec![] };
    assert!(!m.can_see(&blocked, cs[0]));
    assert!(m.can_see(&blocked, cs[1]));
    assert!(m.can_see(&around, cs[0]));
    let seen = m.los_from(h(0, 0), cs[0], &[blocked, clear, around, wall]);
    let mut got: Vec<Hex> = seen.items().to_vec();
    got.sort_by_key(|x| (x.x, x.y));
    // A line blocked by another creature or ending on a wall is not seen.
    assert_eq!(got, vec![h(-1, 2), h(0, 0), h(0, 1)]);
    let of = m.los_of(cs[0], &[]).unwrap();
    assert_eq!(of.items(), &[h(0, 0)]);
    let three = ids(3);
    assert!(m.los_of(three[2], &[]).is_none());
}

#[test]
fn boundary_of_one_hex_and_a_pair() {
    let b = find_boundary(&[h(0, 0)]);
    assert_eq!(b.len(), 1);
    assert_eq!(b[0].sides.len(), 6);
    let b2 = find_boundary(&[h(0, 0), h(1, 0), h(0, 0)]);
    assert_eq!(b2.len(), 2);
    for bound in &b2 {
        assert_eq!(bound.sides.len(), 5);
        if bound.hex == h(0, 0) {
            assert!(!bound.sides.contains(&Direction::XZ));
        } else {
            assert!(!bound.sides.contains(&Direction::ZX));
        }
    }
    assert!(find_boundary(&[]).is_empty());
}
