//! Helpers over the field of view.
use vstd::prelude::*;

use crate::bresenham::pt;
use crate::fov::{field_of_view, fov_holds, in_bounds, lemma_fov_in_bounds, VisionMap};
use crate::Point;

verus! {

/// The transparent cells seen from `from` within `radius`, each once.
pub fn field_of_view_no_walls<T: VisionMap>(map: &T, from: Point, radius: i32) -> (r: Vec<Point>)
    requires
        in_bounds(map.spec_dimensions(), from.0 as int, from.1 as int),
        map.spec_dimensions().0 as int * map.spec_dimensions().1 as int <= usize::MAX,
    ensures
        r@.no_duplicates(),
        forall|c: Point|
            #[trigger] r@.contains(c) <==> fov_holds(map, pt(from), radius as int, true, pt(c))
                && !map.spec_opaque(c.0 as int, c.1 as int),
{
    let all = field_of_view(map, from.0, from.1, radius, true);
    let mut out: Vec<Point> = Vec::new();
    let mut k: usize = 0;
    while k < all.len()
        invariant
            k <= all@.len(),
            all@.no_duplicates(),
            in_bounds(map.spec_dimensions(), from.0 as int, from.1 as int),
            forall|c: Point| #[trigger] all@.contains(c) <==> fov_holds(map, pt(from), radius as int, true, pt(c)),
            out@.no_duplicates(),
            forall|c: Point|
                #[trigger] out@.contains(c) <==> (all@.take(k as int).contains(c) && !map.spec_opaque(
                    c.0 as int,
                    c.1 as int,
                )),
        decreases all@.len() - k,
    {
        let c = all[k];
        proof {
            assert(all@.contains(c));
            lemma_fov_in_bounds(map, pt(from), radius as int, true, pt(c));
        }
        let ghost prev = out@;
        assert(all@.take(k + 1) =~= all@.take(k as int).push(c));
        if !map.is_opaque(c.0, c.1) {
            out.push(c);
            proof {
                if prev.contains(c) {
                    let j = choose|j: int| 0 <= j < k && #[trigger] all@.take(k as int)[j] == c;
                    assert(all@[j] == all@[k as int]);
                }
                assert forall|c2: Point| #[trigger] out@.contains(c2) <==> (all@.take(k + 1).contains(c2)
                    && !map.spec_opaque(c2.0 as int, c2.1 as int)) by {
                    if out@.contains(c2) && c2 != c {
                        let j = choose|j: int| 0 <= j < out@.len() && #[trigger] out@[j] == c2;
                        assert(j < prev.len());
                        assert(prev[j] == c2);
                        assert(prev.contains(c2));
                        assert(all@.take(k as int).contains(c2));
                        let i = choose|i: int| 0 <= i < k && #[trigger] all@.take(k as int)[i] == c2;
                        assert(all@.take(k + 1)[i] == c2);
                    }
                    if all@.take(k + 1).contains(c2) && c2 != c {
                        let j = choose|j: int| 0 <= j < k + 1 && #[trigger] all@.take(k + 1)[j] == c2;
                        assert(all@.take(k as int)[j] == c2);
                        if !map.spec_opaque(c2.0 as int, c2.1 as int) {
                            assert(prev.contains(c2));
                            let i = choose|i: int| 0 <= i < prev.len() && #[trigger] prev[i] == c2;
                            assert(out@[i] == c2);
                        }
                    }
                    if c2 == c {
                        assert(out@[prev.len() as int] == c);
                        assert(all@.take(k + 1)[k as int] == c);
                    }
                }
            }
        } else {
            proof {
                assert forall|c2: Point| #[trigger] out@.contains(c2) <==> (all@.take(k + 1).contains(c2)
                    && !map.spec_opaque(c2.0 as int, c2.1 as int)) by {
                    if all@.take(k + 1).contains(c2) && c2 != c {
                        let j = choose|j: int| 0 <= j < k + 1 && #[trigger] all@.take(k + 1)[j] == c2;
                        assert(all@.take(k as int)[j] == c2);
                    }
                    if out@.contains(c2) {
                        assert(all@.take(k as int).contains(c2));
                        let j = choose|j: int| 0 <= j < k && #[trigger] all@.take(k as int)[j] == c2;
                        assert(all@.take(k + 1)[j] == c2);
                    }
                }
            }
        }
        k = k + 1;
    }
    proof {
        assert(all@.take(all@.len() as int) =~= all@);
        assert forall|c: Point| #[trigger] out@.contains(c) <==> fov_holds(map, pt(from), radius as int, true, pt(c))
            && !map.spec_opaque(c.0 as int, c.1 as int) by {
            assert(all@.contains(c) == all@.take(all@.len() as int).contains(c));
        }
    }
    out
}

} // verus!
