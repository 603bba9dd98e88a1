use crate::dice::roll_die;
use crate::rect::Rect;
use vstd::prelude::*;

verus! {

/// The point (x, y) lies in the region, its left and top edge included,
/// its right and bottom edge not.
pub open spec fn region_holds(region: Rect, x: int, y: int) -> bool {
    region.x1 <= x < region.x2 && region.y1 <= y < region.y2
}

/// The region is at least `min_size` wide and high.
pub open spec fn region_has_size(region: Rect, min_size: int) -> bool {
    region.x1 + min_size <= region.x2 && region.y1 + min_size <= region.y2
}

/// The region is too small to be cut into two parts of at least
/// `min_size`, along either axis.
pub open spec fn region_is_leaf(region: Rect, min_size: int) -> bool {
    region.x2 - region.x1 < 2 * min_size && region.y2 - region.y1 < 2 * min_size
}

/// `leaves[from..]` cut `region` into parts: each part lies inside the
/// region, has at least the minimum size and cannot be cut further, no two
/// parts overlap, and every point of the region lies in one of them.
pub open spec fn partitions(leaves: Seq<Rect>, from: int, region: Rect, min_size: int) -> bool {
    &&& 0 <= from < leaves.len()
    &&& forall|i: int|
        from <= i < leaves.len() ==> (#[trigger] leaves[i]).within(region) && region_has_size(
            leaves[i],
            min_size,
        ) && region_is_leaf(leaves[i], min_size)
    &&& forall|i: int, j: int|
        from <= i < j < leaves.len() ==> !(#[trigger] leaves[i]).overlaps(#[trigger] leaves[j])
    &&& forall|x: int, y: int| #[trigger]
        region_holds(region, x, y) ==> exists|i: int|
            from <= i < leaves.len() && region_holds(#[trigger] leaves[i], x, y)
}

/// Cuts `region` into parts by halving it again and again, along its
/// width or its height, until no part can be halved into two of at least
/// `min_size`. Where both cuts are possible a die decides. The parts are
/// appended to `leaves`.
pub fn split_region(
    region: Rect,
    min_size: i32,
    rng: &mut rltk::RandomNumberGenerator,
    leaves: &mut Vec<Rect>,
)
    requires
        1 <= min_size,
        region_has_size(region, min_size as int),
    ensures
        final(leaves)@.subrange(0, old(leaves)@.len() as int) == old(leaves)@,
        partitions(final(leaves)@, old(leaves)@.len() as int, region, min_size as int),
    decreases (region.x2 - region.x1) + (region.y2 - region.y1),
{
    let ghost before = leaves@;
    let width: i64 = region.x2 as i64 - region.x1 as i64;
    let height: i64 = region.y2 as i64 - region.y1 as i64;
    let wide: bool = width >= 2 * (min_size as i64);
    let high: bool = height >= 2 * (min_size as i64);
    if !wide && !high {
        leaves.push(region);
        proof {
            assert(leaves@.subrange(0, before.len() as int) =~= before);
            assert forall|x: int, y: int| #[trigger] region_holds(region, x, y) implies exists|
                i: int,
            |
                before.len() <= i < leaves@.len() && region_holds(#[trigger] leaves@[i], x, y) by {
                assert(region_holds(leaves@[before.len() as int], x, y));
            }
        }
        return ;
    }
    let along_width: bool = if wide && high {
        roll_die(rng, 2) == 1
    } else {
        wide
    };
    let first: Rect;
    let second: Rect;
    if along_width {
        let middle: i32 = (region.x1 as i64 + width / 2) as i32;
        first = Rect { x1: region.x1, y1: region.y1, x2: middle, y2: region.y2 };
        second = Rect { x1: middle, y1: region.y1, x2: region.x2, y2: region.y2 };
    } else {
        let middle: i32 = (region.y1 as i64 + height / 2) as i32;
        first = Rect { x1: region.x1, y1: region.y1, x2: region.x2, y2: middle };
        second = Rect { x1: region.x1, y1: middle, x2: region.x2, y2: region.y2 };
    }
    split_region(first, min_size, rng, leaves);
    let ghost halfway = leaves@;
    split_region(second, min_size, rng, leaves);
    proof {
        let after = leaves@;
        let n0 = before.len() as int;
        let n1 = halfway.len() as int;
        assert(after.subrange(0, n0) =~= before) by {
            assert forall|i: int| 0 <= i < n0 implies after[i] == before[i] by {
                assert(after.subrange(0, n1)[i] == halfway[i]);
                assert(halfway.subrange(0, n0)[i] == before[i]);
            }
        }
        assert forall|i: int| n0 <= i < n1 implies after[i] == halfway[i] by {
            assert(after.subrange(0, n1)[i] == halfway[i]);
        }
        assert forall|i: int| n0 <= i < after.len() implies (#[trigger] after[i]).within(region)
            && region_has_size(after[i], min_size as int) && region_is_leaf(
            after[i],
            min_size as int,
        ) by {
            if i < n1 {
                assert(halfway[i].within(first));
            } else {
                assert(after[i].within(second));
            }
        }
        assert forall|i: int, j: int| n0 <= i < j < after.len() implies !(
        #[trigger] after[i]).overlaps(#[trigger] after[j]) by {
            if j < n1 {
                assert(!halfway[i].overlaps(halfway[j]));
            } else if i >= n1 {
            } else {
                assert(halfway[i].within(first));
                assert(after[j].within(second));
                crate::rect::lemma_within_disjoint(after[i], after[j], first, second);
            }
        }
        assert forall|x: int, y: int| #[trigger] region_holds(region, x, y) implies exists|i: int|
            n0 <= i < after.len() && region_holds(#[trigger] after[i], x, y) by {
            if region_holds(first, x, y) {
                let i = choose|i: int|
                    n0 <= i < halfway.len() && region_holds(#[trigger] halfway[i], x, y);
                assert(after[i] == halfway[i]);
                assert(region_holds(after[i], x, y));
            } else {
                assert(region_holds(second, x, y));
                let i = choose|i: int|
                    n1 <= i < after.len() && region_holds(#[trigger] after[i], x, y);
                assert(region_holds(after[i], x, y));
            }
        }
    }
}

} // verus!
