//! The outline of a set of hexes: which sides of which hexes face outside it.
use vstd::prelude::*;
use crate::hex::{Direction, Hex, spec_directions, spec_step};
use crate::vec_set::VecSet;

verus! {

/// A hex of a shape and the sides of it that face outside the shape.
#[derive(Debug, Clone)]
pub struct Boundary {
    pub hex: Hex,
    pub sides: Vec<Direction>,
}

/// The directions among the first `n`, in order, in which the neighbor of `h` is not in
/// `shape`.
pub open spec fn outer_sides(shape: Set<Hex>, h: Hex, n: int) -> Seq<Direction>
    decreases n,
{
    if n <= 0 {
        Seq::empty()
    } else if !shape.contains(spec_step(h, spec_directions()[n - 1])) {
        outer_sides(shape, h, n - 1).push(spec_directions()[n - 1])
    } else {
        outer_sides(shape, h, n - 1)
    }
}

/// Every hex of `shape` with a side facing outside it, once each, with those sides in the
/// order of the directions.
pub fn find_boundary(shape: &[Hex]) -> (r: Vec<Boundary>)
    requires
        forall|i: int| 0 <= i < shape@.len() ==> (#[trigger] shape@[i]).interior(),
    ensures
        forall|i: int, j: int| 0 <= i < j < r@.len() ==> r@[i].hex != r@[j].hex,
        forall|h: Hex| (exists|i: int| 0 <= i < r@.len() && #[trigger] r@[i].hex == h) <==> shape@.contains(h)
            && outer_sides(shape@.to_set(), h, 6).len() > 0,
        forall|i: int| 0 <= i < r@.len() ==> (#[trigger] r@[i]).sides@ == outer_sides(shape@.to_set(), r@[i].hex, 6),
{
    let set = VecSet::from_slice(shape);
    let ghost s = shape@.to_set();
    proof {
        use_type_invariant(&set);
        set.lemma_elems();
    }
    let hexes = set.items();
    let dirs = Direction::all();
    let mut out: Vec<Boundary> = Vec::new();
    let mut i: usize = 0;
    while i < hexes.len()
        invariant
            set@ == s,
            s == shape@.to_set(),
            hexes@ == set.elems(),
            hexes@.no_duplicates(),
            forall|h: Hex| #[trigger] s.contains(h) <==> hexes@.contains(h),
            forall|k: int| 0 <= k < shape@.len() ==> (#[trigger] shape@[k]).interior(),
            dirs@ == spec_directions(),
            i <= hexes@.len(),
            forall|a: int, b: int| 0 <= a < b < out@.len() ==> out@[a].hex != out@[b].hex,
            forall|h: Hex| (exists|k: int| 0 <= k < out@.len() && #[trigger] out@[k].hex == h) <==> (exists|k: int|
                0 <= k < i && hexes@[k] == h) && outer_sides(s, h, 6).len() > 0,
            forall|k: int| 0 <= k < out@.len() ==> (#[trigger] out@[k]).sides@ == outer_sides(s, out@[k].hex, 6),
        decreases hexes@.len() - i,
    {
        let hex = hexes[i];
        proof {
            assert(hexes@.contains(hex));
            assert(s.contains(hex));
            assert(shape@.contains(hex));
            let k = choose|k: int| 0 <= k < shape@.len() && shape@[k] == hex;
            assert(shape@[k].interior());
        }
        let mut sides: Vec<Direction> = Vec::new();
        let mut d: usize = 0;
        while d < dirs.len()
            invariant
                set@ == s,
                hex.interior(),
                dirs@ == spec_directions(),
                d <= 6,
                sides@ == outer_sides(s, hex, d as int),
            decreases 6 - d,
        {
            let n = hex.step(dirs[d]);
            if !set.contains(&n) {
                sides.push(dirs[d]);
            }
            d = d + 1;
        }
        let ghost before = out@;
        if sides.len() > 0 {
            out.push(Boundary { hex, sides });
            proof {
                assert forall|a: int, b: int| 0 <= a < b < out@.len() implies out@[a].hex != out@[b].hex by {
                    if b == out@.len() - 1 {
                        if out@[a].hex == hex {
                            assert(exists|k: int| 0 <= k < before.len() && #[trigger] before[k].hex == hex);
                            let k2 = choose|k2: int| 0 <= k2 < i && hexes@[k2] == hex;
                            assert(hexes@[k2] == hexes@[i as int]);
                        }
                    }
                }
            }
        }
        proof {
            assert forall|h: Hex| (exists|k: int| 0 <= k < out@.len() && #[trigger] out@[k].hex == h) <==> (exists|k: int|
                0 <= k < i + 1 && hexes@[k] == h) && outer_sides(s, h, 6).len() > 0 by {
                if exists|k: int| 0 <= k < out@.len() && #[trigger] out@[k].hex == h {
                    let k = choose|k: int| 0 <= k < out@.len() && #[trigger] out@[k].hex == h;
                    if k < before.len() {
                        assert(before[k].hex == h);
                        let k2 = choose|k2: int| 0 <= k2 < i && hexes@[k2] == h;
                        assert(0 <= k2 < i + 1 && hexes@[k2] == h);
                    } else {
                        assert(hexes@[i as int] == h);
                    }
                }
                if (exists|k: int| 0 <= k < i + 1 && hexes@[k] == h) && outer_sides(s, h, 6).len() > 0 {
                    let k = choose|k: int| 0 <= k < i + 1 && hexes@[k] == h;
                    if k < i {
                        let k3 = choose|k3: int| 0 <= k3 < before.len() && #[trigger] before[k3].hex == h;
                        assert(out@[k3].hex == h);
                    } else {
                        assert(out@[out@.len() - 1].hex == h);
                    }
                }
            }
        }
        i = i + 1;
    }
    proof {
        assert forall|h: Hex| (exists|k: int| 0 <= k < out@.len() && #[trigger] out@[k].hex == h) <==> shape@.contains(h)
            && outer_sides(shape@.to_set(), h, 6).len() > 0 by {
            if shape@.contains(h) {
                assert(s.contains(h));
                assert(hexes@.contains(h));
            }
            if exists|k: int| 0 <= k < hexes@.len() && hexes@[k] == h {
                let k = choose|k: int| 0 <= k < hexes@.len() && hexes@[k] == h;
                assert(hexes@.contains(h));
                assert(s.contains(h));
            }
        }
    }
    out
}

} // verus!
