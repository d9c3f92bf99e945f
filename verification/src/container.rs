//! A box being filled: its placements, its remaining free spaces, and the
//! invariant that every placement in it is sound.

use vstd::prelude::*;

use crate::geometry::{
    edges_bounded, extent_fits, inside, is_empty_dims, lemma_split_parts_inside, max_int,
    oriented, overlap_length, overlap_spec, region_contains, space_fits, split_spec, volume_of,
    Dimensions, FreeSpace, Orientation, Position, MAX_EDGE,
};
use crate::geometry::{holds_point, some_holds, lemma_split_parts_clear, regions_intersect, distinct_orientations, grid_capacity, lemma_distinct_orientations_oriented, orientations};
use crate::placement::{
    collides, is_below_existing_product, support_for,
    below_spec, collides_spec, extent_bounded, floor_ids, placements_bounded, string_views,
    strictly_ascending, support_ids, support_rects, union_area, weak_beneath, Item, PlacedItem, ITEM_LIMIT,
};
use crate::sorting::{sort_by, sorted_by, total_preorder};

verus! {

broadcast use vstd::seq_lib::group_to_multiset_ensures;

/// The most free spaces a box keeps.
pub const MAX_FREE_SPACES_PER_BOX: usize = 4096;

/// A kind of box in stock.
#[derive(Clone, Debug)]
pub struct StockBox {
    pub box_type_id: String,
    pub size: Dimensions,
    pub max_weight: u64,
    pub count: usize,
}

/// Where and how an item would go into a box.
#[derive(Debug)]
pub struct PlacementCandidate {
    pub position: Position,
    pub size: Dimensions,
    pub orientation: Orientation,
    pub supported_by: Vec<String>,
    pub free_space_waste: u64,
    pub contact_area: u64,
}

/// A box taken from stock and being filled.
#[derive(Debug)]
pub struct OpenBox {
    pub instance_id: String,
    pub box_type_id: String,
    pub size: Dimensions,
    pub max_weight: u64,
    pub total_weight: u64,
    pub used_volume: u64,
    pub occupied_size: Dimensions,
    pub free_spaces: Vec<FreeSpace>,
    pub preferred_orientations: Vec<(String, Dimensions)>,
    pub placements: Vec<PlacedItem>,
}

/// Edges between 1 and `MAX_EDGE`: the shapes a product can have.
pub open spec fn item_shape_ok(d: Dimensions) -> bool {
    &&& !is_empty_dims(d)
    &&& edges_bounded(d)
}

pub open spec fn weight_sum(placed: Seq<PlacedItem>) -> int
    decreases placed.len(),
{
    if placed.len() == 0 {
        0
    } else {
        weight_sum(placed.drop_last()) + placed.last().item.weight
    }
}

pub open spec fn volume_sum(placed: Seq<PlacedItem>) -> int
    decreases placed.len(),
{
    if placed.len() == 0 {
        0
    } else {
        volume_sum(placed.drop_last()) + volume_of(placed.last().item.size)
    }
}

pub open spec fn grow_to(d: Dimensions, position: Position, size: Dimensions) -> Dimensions {
    Dimensions {
        width: max_int(d.width as int, position.x + size.width) as u32,
        height: max_int(d.height as int, position.y + size.height) as u32,
        depth: max_int(d.depth as int, position.z + size.depth) as u32,
    }
}

/// The smallest corner-anchored extent that holds every placement.
pub open spec fn occupied_fold(placed: Seq<PlacedItem>) -> Dimensions
    decreases placed.len(),
{
    if placed.len() == 0 {
        Dimensions { width: 0, height: 0, depth: 0 }
    } else {
        grow_to(occupied_fold(placed.drop_last()), placed.last().position, placed.last().size)
    }
}

/// The recorded supports match what lies beneath: the floor, or the items
/// touching the region from below, in ascending order, with no weak item
/// anywhere beneath.
pub open spec fn support_matches(position: Position, size: Dimensions, earlier: Seq<PlacedItem>, ids: Seq<String>) -> bool {
    if position.y == 0 {
        string_views(ids) == floor_ids()
    } else {
        &&& !weak_beneath(position, size, earlier)
        &&& union_area(support_rects(position, size, earlier)) >= size.width * size.depth
        &&& strictly_ascending(string_views(ids))
        &&& string_views(ids).to_set() == support_ids(position, size, earlier)
    }
}

/// A placement is sound against the items placed before it: inside the box,
/// a turn of the item, clear of every earlier item, under none of them, and
/// resting on the floor or on items below.
pub open spec fn placement_sound(p: PlacedItem, box_size: Dimensions, earlier: Seq<PlacedItem>) -> bool {
    &&& inside(p.position, p.size, box_size)
    &&& item_shape_ok(p.item.size)
    &&& p.size == oriented(p.orientation, p.item.size)
    &&& !collides_spec(p.position, p.size, earlier)
    &&& !below_spec(p.position, p.size, earlier)
    &&& support_matches(p.position, p.size, earlier, p.supported_by@)
}

/// The invariant of a box being filled.
pub open spec fn box_wf(b: OpenBox) -> bool {
    &&& edges_bounded(b.size)
    &&& forall|i: int| 0 <= i < b.free_spaces@.len() ==> #[trigger] inside(b.free_spaces@[i].position, b.free_spaces@[i].size, b.size)
    &&& forall|k: int| 0 <= k < b.placements@.len() ==> #[trigger] placement_sound(b.placements@[k], b.size, b.placements@.take(k))
    &&& b.total_weight == weight_sum(b.placements@)
    &&& b.total_weight <= b.max_weight
    &&& b.used_volume == volume_sum(b.placements@)
    &&& b.occupied_size == occupied_fold(b.placements@)
}

/// A candidate that `place` may put into the box.
pub open spec fn candidate_sound(b: OpenBox, item: Item, c: PlacementCandidate) -> bool {
    &&& b.total_weight + item.weight <= b.max_weight
    &&& item_shape_ok(item.size)
    &&& exists|i: int| 0 <= i < b.free_spaces@.len() && #[trigger] fits_at(b.free_spaces@[i], c.position, c.size)
    &&& c.size == oriented(c.orientation, item.size)
    &&& !collides_spec(c.position, c.size, b.placements@)
    &&& !below_spec(c.position, c.size, b.placements@)
    &&& support_matches(c.position, c.size, b.placements@, c.supported_by@)
}

/// The region starts at the corner of the free space and fits in it.
pub open spec fn fits_at(f: FreeSpace, position: Position, size: Dimensions) -> bool {
    &&& position == f.position
    &&& size.width <= f.size.width
    &&& size.height <= f.size.height
    &&& size.depth <= f.size.depth
}

/// Each free space split around the occupied region, in order.
pub open spec fn split_all(spaces: Seq<FreeSpace>, occupied: FreeSpace) -> Seq<FreeSpace>
    decreases spaces.len(),
{
    if spaces.len() == 0 {
        Seq::empty()
    } else {
        split_all(spaces.drop_last(), occupied) + split_spec(spaces.last(), occupied)
    }
}

/// The order in which free spaces are kept: larger volume first, then lower
/// y, z, x, then smaller width, height and depth.
pub open spec fn space_before(a: FreeSpace, b: FreeSpace) -> bool {
    if volume_of(a.size) != volume_of(b.size) {
        volume_of(a.size) > volume_of(b.size)
    } else if a.position.y != b.position.y {
        a.position.y < b.position.y
    } else if a.position.z != b.position.z {
        a.position.z < b.position.z
    } else if a.position.x != b.position.x {
        a.position.x < b.position.x
    } else if a.size.width != b.size.width {
        a.size.width < b.size.width
    } else if a.size.height != b.size.height {
        a.size.height < b.size.height
    } else {
        a.size.depth < b.size.depth
    }
}

pub open spec fn space_le(a: FreeSpace, b: FreeSpace) -> bool {
    !space_before(b, a)
}

pub open spec fn contains_space(a: FreeSpace, b: FreeSpace) -> bool {
    region_contains(a.position, a.size, b.position, b.size)
}

/// `out` is what pruning `input` keeps: in strict space order, drawn from
/// `input`, none inside an earlier one, at most `MAX_FREE_SPACES_PER_BOX` of
/// them, and every input space up to the last one kept (every input space,
/// unless the cap was reached) is kept or lies inside a kept space that does
/// not come after it.
pub open spec fn is_pruned(out: Seq<FreeSpace>, input: Seq<FreeSpace>) -> bool {
    &&& forall|i: int, j: int| 0 <= i < j < out.len() ==> #[trigger] space_before(out[i], out[j])
    &&& forall|i: int| 0 <= i < out.len() ==> input.contains(#[trigger] out[i])
    &&& forall|i: int, j: int| 0 <= i < j < out.len() ==> !#[trigger] contains_space(out[i], out[j])
    &&& out.len() <= MAX_FREE_SPACES_PER_BOX
    &&& forall|s: FreeSpace| #[trigger] input.contains(s)
        && (out.len() < MAX_FREE_SPACES_PER_BOX || !space_before(out.last(), s))
        ==> out.contains(s) || exists|i: int| 0 <= i < out.len() && contains_space(out[i], s) && !space_before(s, out[i])
}

/// Pruning below the cap loses no free point: a point some input space
/// holds is held by some kept space, and every kept space is an input space.
pub proof fn lemma_pruning_keeps_free_points(out: Seq<FreeSpace>, input: Seq<FreeSpace>, x: int, y: int, z: int)
    requires
        is_pruned(out, input),
        out.len() < MAX_FREE_SPACES_PER_BOX,
    ensures
        some_holds(out, x, y, z) <==> some_holds(input, x, y, z),
{
    if some_holds(input, x, y, z) {
        let i = choose|i: int| 0 <= i < input.len() && #[trigger] holds_point(input[i], x, y, z);
        let sp = input[i];
        assert(input.contains(sp));
        if out.contains(sp) {
            let k = choose|k: int| 0 <= k < out.len() && out[k] == sp;
            assert(holds_point(out[k], x, y, z));
        } else {
            let k = choose|k: int| 0 <= k < out.len() && contains_space(out[k], sp) && !space_before(sp, out[k]);
            assert(holds_point(out[k], x, y, z));
        }
    }
    if some_holds(out, x, y, z) {
        let k = choose|k: int| 0 <= k < out.len() && #[trigger] holds_point(out[k], x, y, z);
        assert(input.contains(out[k]));
        let i = choose|i: int| 0 <= i < input.len() && input[i] == out[k];
        assert(holds_point(input[i], x, y, z));
    }
}

/// Pruning leaves nothing open: two outcomes that both meet `is_pruned` for
/// the same input are the same sequence.
pub proof fn lemma_pruning_is_determined(a: Seq<FreeSpace>, b: Seq<FreeSpace>, input: Seq<FreeSpace>)
    requires
        is_pruned(a, input),
        is_pruned(b, input),
    ensures
        a == b,
{
    if a.len() <= b.len() {
        lemma_pruned_agree(a, b, input);
    } else {
        lemma_pruned_agree(b, a, input);
    }
    assert(a =~= b);
}

/// A pruned outcome no longer than another agrees with it everywhere and is
/// as long.
proof fn lemma_pruned_agree(a: Seq<FreeSpace>, b: Seq<FreeSpace>, input: Seq<FreeSpace>)
    requires
        is_pruned(a, input),
        is_pruned(b, input),
        a.len() <= b.len(),
    ensures
        a.len() == b.len(),
        forall|k: int| 0 <= k < a.len() ==> a[k] == b[k],
{
    lemma_space_order();
    if a.len() > 0 {
        lemma_pruned_prefix(a, b, input, a.len() - 1);
    }
    if a.len() < b.len() {
        let n = a.len() as int;
        let s = b[n];
        assert(input.contains(s));
        assert(a.len() < MAX_FREE_SPACES_PER_BOX);
        if a.contains(s) {
            let m = choose|m: int| 0 <= m < a.len() && a[m] == s;
            assert(a[m] == b[m]);
            assert(space_before(b[m], b[n]));
        } else {
            let i = choose|i: int| 0 <= i < a.len() && contains_space(a[i], s) && !space_before(s, a[i]);
            assert(a[i] == b[i]);
            assert(!contains_space(b[i], b[n]));
        }
    }
}

/// Two pruned outcomes agree on their first `k + 1` spaces.
proof fn lemma_pruned_prefix(a: Seq<FreeSpace>, b: Seq<FreeSpace>, input: Seq<FreeSpace>, k: int)
    requires
        is_pruned(a, input),
        is_pruned(b, input),
        0 <= k < a.len(),
        k < b.len(),
    ensures
        forall|i: int| 0 <= i <= k ==> a[i] == b[i],
    decreases k,
{
    lemma_space_order();
    if k > 0 {
        lemma_pruned_prefix(a, b, input, k - 1);
    }
    lemma_pruned_step(a, b, input, k);
    lemma_pruned_step(b, a, input, k);
}

/// Where two pruned outcomes agree before `k`, the first one's space at `k`
/// does not come before the second one's.
proof fn lemma_pruned_step(a: Seq<FreeSpace>, b: Seq<FreeSpace>, input: Seq<FreeSpace>, k: int)
    requires
        is_pruned(a, input),
        is_pruned(b, input),
        0 <= k < a.len(),
        k < b.len(),
        forall|i: int| 0 <= i < k ==> a[i] == b[i],
    ensures
        !space_before(a[k], b[k]),
{
    lemma_space_order();
    if space_before(a[k], b[k]) {
        let s = a[k];
        assert(input.contains(s));
        let last = b.len() - 1;
        if last > k {
            assert(space_before(b[k], b[last]));
        }
        assert(space_before(s, b[last]));
        assert(!space_before(b.last(), s));
        if b.contains(s) {
            let m = choose|m: int| 0 <= m < b.len() && b[m] == s;
            if m > k {
                assert(space_before(b[k], b[m]));
            }
            assert(m < k);
            assert(a[m] == s);
            assert(space_before(a[m], a[k]));
        } else {
            let i = choose|i: int| 0 <= i < b.len() && contains_space(b[i], s) && !space_before(s, b[i]);
            assert(b[i] != s);
            assert(space_before(b[i], s));
            if i > k {
                assert(space_before(b[k], b[i]));
            }
            assert(i < k);
            assert(a[i] == b[i]);
            assert(!contains_space(a[i], a[k]));
        }
    }
}

pub open spec fn spaces_fit(spaces: Seq<FreeSpace>) -> bool {
    forall|i: int| 0 <= i < spaces.len() ==> #[trigger] space_fits(spaces[i])
}

proof fn lemma_space_order()
    ensures
        total_preorder(|a: FreeSpace, b: FreeSpace| space_le(a, b)),
        forall|a: FreeSpace, b: FreeSpace| a != b ==> #[trigger] space_before(a, b) || space_before(b, a),
        forall|a: FreeSpace, b: FreeSpace| !(#[trigger] space_before(a, b) && space_before(b, a)),
        forall|a: FreeSpace| !#[trigger] space_before(a, a),
        forall|a: FreeSpace, b: FreeSpace, c: FreeSpace| #[trigger] space_before(a, b) && #[trigger] space_before(b, c) ==> space_before(a, c),
{
    assert forall|a: FreeSpace, b: FreeSpace| a != b implies #[trigger] space_before(a, b) || space_before(b, a) by {
        if a.position == b.position && a.size == b.size {
            assert(a == b);
        }
    }
}

fn space_less(a: &FreeSpace, b: &FreeSpace) -> (r: bool)
    ensures
        r == space_before(*a, *b),
{
    let va = crate::geometry::wide_volume(a.size);
    let vb = crate::geometry::wide_volume(b.size);
    if va != vb {
        va > vb
    } else if a.position.y != b.position.y {
        a.position.y < b.position.y
    } else if a.position.z != b.position.z {
        a.position.z < b.position.z
    } else if a.position.x != b.position.x {
        a.position.x < b.position.x
    } else if a.size.width != b.size.width {
        a.size.width < b.size.width
    } else if a.size.height != b.size.height {
        a.size.height < b.size.height
    } else {
        a.size.depth < b.size.depth
    }
}

/// Sorts the free spaces in space order, drops repeats and spaces lying
/// inside a space kept before them, and keeps at most
/// `MAX_FREE_SPACES_PER_BOX` of them.
pub fn prune_free_spaces(spaces: &mut Vec<FreeSpace>)
    requires
        spaces_fit(old(spaces)@),
    ensures
        is_pruned(final(spaces)@, old(spaces)@),
{
    proof {
        lemma_space_order();
    }
    let ghost original = spaces@;
    let mut taken: Vec<FreeSpace> = Vec::new();
    std::mem::swap(&mut taken, spaces);
    let sorted = sort_by(taken, space_less, Ghost(|a: FreeSpace, b: FreeSpace| space_le(a, b)));
    proof {
        assert forall|x: FreeSpace| sorted@.contains(x) implies original.contains(x) by {
            assert(sorted@.to_multiset().count(x) > 0);
        }
    }
    // Drop repeats: equal spaces are adjacent once sorted.
    let mut unique: Vec<FreeSpace> = Vec::new();
    let mut i: usize = 0;
    while i < sorted.len()
        invariant
            i <= sorted@.len(),
            sorted_by(sorted@, |a: FreeSpace, b: FreeSpace| space_le(a, b)),
            forall|x: FreeSpace| sorted@.contains(x) ==> original.contains(x),
            forall|a: int, b: int| 0 <= a < b < unique@.len() ==> #[trigger] space_before(unique@[a], unique@[b]),
            forall|x: FreeSpace| unique@.contains(x) <==> sorted@.take(i as int).contains(x),
            i > 0 ==> unique@.len() > 0 && unique@.last() == sorted@[i - 1],
            i == 0 ==> unique@.len() == 0,
            forall|a: FreeSpace, b: FreeSpace| a != b ==> #[trigger] space_before(a, b) || space_before(b, a),
            forall|a: FreeSpace, b: FreeSpace| !(#[trigger] space_before(a, b) && space_before(b, a)),
            forall|a: FreeSpace, b: FreeSpace, c: FreeSpace| #[trigger] space_before(a, b) && #[trigger] space_before(b, c) ==> space_before(a, c),
        decreases sorted@.len() - i,
    {
        let x = sorted[i];
        let ghost prev = unique@;
        if unique.len() == 0 || unique[unique.len() - 1] != x {
            proof {
                if i > 0 {
                    let leq = |a: FreeSpace, b: FreeSpace| space_le(a, b);
                    assert(leq(sorted@[i - 1], sorted@[i as int]));
                    assert(space_before(prev.last(), x));
                    assert forall|a: int, b: int| 0 <= a < b < prev.len() + 1 implies #[trigger] space_before(prev.push(x)[a], prev.push(x)[b]) by {
                        if b == prev.len() && a < prev.len() - 1 {
                            assert(space_before(prev[a], prev[prev.len() - 1]));
                        }
                    }
                }
            }
            unique.push(x);
        }
        proof {
            let t = sorted@.take(i + 1);
            assert(t =~= sorted@.take(i as int).push(x));
            assert forall|y: FreeSpace| unique@.contains(y) <==> t.contains(y) by {
                if unique@.contains(y) {
                    let k = choose|k: int| 0 <= k < unique@.len() && unique@[k] == y;
                    if k < prev.len() {
                        assert(prev[k] == y);
                        assert(prev.contains(y));
                        let j = choose|j: int| 0 <= j < i && sorted@.take(i as int)[j] == y;
                        assert(t[j] == y);
                    } else {
                        assert(t[i as int] == y);
                    }
                }
                if t.contains(y) {
                    let j = choose|j: int| 0 <= j < t.len() && t[j] == y;
                    if j < i {
                        assert(sorted@.take(i as int)[j] == y);
                        assert(sorted@.take(i as int).contains(y));
                        assert(prev.contains(y));
                        let k = choose|k: int| 0 <= k < prev.len() && prev[k] == y;
                        assert(unique@[k] == y);
                    } else {
                        assert(y == x);
                        assert(unique@[unique@.len() - 1] == x);
                    }
                }
            }
        }
        i = i + 1;
    }
    proof {
        assert(sorted@.take(sorted@.len() as int) =~= sorted@);
        assert forall|x: FreeSpace| original.contains(x) implies unique@.contains(x) by {
            assert(original.to_multiset().count(x) > 0);
            assert(sorted@.to_multiset().count(x) > 0);
            assert(sorted@.contains(x));
        }
    }
    // Keep each space unless a space kept before it contains it.
    let mut pruned: Vec<FreeSpace> = Vec::new();
    let mut i: usize = 0;
    while i < unique.len()
        invariant
            i <= unique@.len(),
            original == old(spaces)@,
            spaces_fit(original),
            forall|x: FreeSpace| unique@.contains(x) ==> original.contains(x),
            forall|x: FreeSpace| original.contains(x) ==> unique@.contains(x),
            forall|a: int, b: int| 0 <= a < b < unique@.len() ==> #[trigger] space_before(unique@[a], unique@[b]),
            forall|a: int, b: int| 0 <= a < b < pruned@.len() ==> #[trigger] space_before(pruned@[a], pruned@[b]),
            forall|a: int| 0 <= a < pruned@.len() ==> original.contains(#[trigger] pruned@[a]),
            forall|a: int| 0 <= a < pruned@.len() ==> exists|b: int| 0 <= b < i && unique@[b] == #[trigger] pruned@[a],
            forall|a: int, b: int| 0 <= a < b < pruned@.len() ==> !#[trigger] contains_space(pruned@[a], pruned@[b]),
            pruned@.len() < MAX_FREE_SPACES_PER_BOX,
            forall|k: int| 0 <= k < i ==> pruned@.contains(#[trigger] unique@[k]) || exists|a: int| 0 <= a < pruned@.len() && contains_space(pruned@[a], unique@[k]) && !space_before(unique@[k], pruned@[a]),
            forall|a: FreeSpace, b: FreeSpace| !(#[trigger] space_before(a, b) && space_before(b, a)),
            forall|a: FreeSpace, b: FreeSpace, c: FreeSpace| #[trigger] space_before(a, b) && #[trigger] space_before(b, c) ==> space_before(a, c),
            forall|a: FreeSpace| !#[trigger] space_before(a, a),
        decreases unique@.len() - i,
    {
        let space = unique[i];
        proof {
            assert(unique@.contains(space));
            assert(original.contains(space));
            let j = choose|j: int| 0 <= j < original.len() && original[j] == space;
            assert(space_fits(original[j]));
        }
        let mut contained = false;
        let mut c: usize = 0;
        while c < pruned.len() && !contained
            invariant
                c <= pruned@.len(),
                space_fits(space),
                spaces_fit(original),
                forall|a: int| 0 <= a < pruned@.len() ==> original.contains(#[trigger] pruned@[a]),
                !contained ==> forall|a: int| 0 <= a < c ==> !#[trigger] contains_space(pruned@[a], space),
                contained ==> exists|a: int| 0 <= a < pruned@.len() && #[trigger] contains_space(pruned@[a], space),
            decreases pruned@.len() - c + (if contained { 0int } else { 1int }),
        {
            proof {
                assert(original.contains(pruned@[c as int]));
                let j = choose|j: int| 0 <= j < original.len() && original[j] == pruned@[c as int];
                assert(space_fits(original[j]));
            }
            if pruned[c].contains(space) {
                contained = true;
                proof {
                    assert(contains_space(pruned@[c as int], space));
                }
            } else {
                c = c + 1;
            }
        }
        let ghost prev = pruned@;
        proof {
            // every kept space comes from an earlier position, so before `space`
            assert forall|a: int| 0 <= a < prev.len() implies #[trigger] space_before(prev[a], space) by {
                let b = choose|b: int| 0 <= b < i && unique@[b] == prev[a];
                assert(space_before(unique@[b], unique@[i as int]));
            }
        }
        if !contained {
            pruned.push(space);
            proof {
                assert(pruned@ =~= prev.push(space));
                assert forall|a: int| 0 <= a < pruned@.len() implies exists|b: int| 0 <= b < i + 1 && unique@[b] == #[trigger] pruned@[a] by {
                    if a < prev.len() {
                        let b = choose|b: int| 0 <= b < i && unique@[b] == prev[a];
                        assert(unique@[b] == pruned@[a]);
                    } else {
                        assert(unique@[i as int] == pruned@[a]);
                    }
                }
                assert forall|a: int, b: int| 0 <= a < b < pruned@.len() implies !#[trigger] contains_space(pruned@[a], pruned@[b]) by {
                    if b == prev.len() {
                        assert(!contains_space(prev[a], space));
                    }
                }
                assert forall|k: int| 0 <= k < i + 1 implies pruned@.contains(#[trigger] unique@[k]) || exists|a: int| 0 <= a < pruned@.len() && contains_space(pruned@[a], unique@[k]) && !space_before(unique@[k], pruned@[a]) by {
                    if k == i {
                        assert(pruned@[prev.len() as int] == unique@[k]);
                    } else if prev.contains(unique@[k]) {
                        let a = choose|a: int| 0 <= a < prev.len() && prev[a] == unique@[k];
                        assert(pruned@[a] == unique@[k]);
                    } else {
                        let a = choose|a: int| 0 <= a < prev.len() && contains_space(prev[a], unique@[k]) && !space_before(unique@[k], prev[a]);
                        assert(pruned@[a] == prev[a]);
                    }
                }
            }
            if pruned.len() == MAX_FREE_SPACES_PER_BOX {
                proof {
                    assert forall|a: int, b: int| 0 <= a < b < pruned@.len() implies #[trigger] space_before(pruned@[a], pruned@[b]) by {
                        if b == prev.len() {
                            assert(space_before(prev[a], space));
                        } else {
                            assert(space_before(prev[a], prev[b]));
                        }
                    }
                    assert forall|a: int| 0 <= a < pruned@.len() implies original.contains(#[trigger] pruned@[a]) by {
                        if a < prev.len() {
                            assert(original.contains(prev[a]));
                        }
                    }
                    assert forall|s: FreeSpace| #[trigger] original.contains(s)
                        && (pruned@.len() < MAX_FREE_SPACES_PER_BOX || !space_before(pruned@.last(), s))
                        implies pruned@.contains(s) || exists|a: int| 0 <= a < pruned@.len() && contains_space(pruned@[a], s) && !space_before(s, pruned@[a]) by {
                        assert(unique@.contains(s));
                        let k = choose|k: int| 0 <= k < unique@.len() && unique@[k] == s;
                        assert(pruned@.last() == unique@[i as int]);
                        if k > i {
                            assert(space_before(unique@[i as int], unique@[k]));
                        }
                        assert(k < i + 1);
                    }
                    assert(is_pruned(pruned@, original));
                }
                *spaces = pruned;
                return;
            }
        } else {
            proof {
                assert forall|k: int| 0 <= k < i + 1 implies pruned@.contains(#[trigger] unique@[k]) || exists|a: int| 0 <= a < pruned@.len() && contains_space(pruned@[a], unique@[k]) && !space_before(unique@[k], pruned@[a]) by {
                    if k == i {
                        let a = choose|a: int| 0 <= a < pruned@.len() && #[trigger] contains_space(pruned@[a], space);
                        assert(space_before(prev[a], space));
                    }
                }
            }
        }
        i = i + 1;
    }
    proof {
        assert forall|s: FreeSpace| #[trigger] original.contains(s)
            && (pruned@.len() < MAX_FREE_SPACES_PER_BOX || !space_before(pruned@.last(), s))
            implies pruned@.contains(s) || exists|a: int| 0 <= a < pruned@.len() && contains_space(pruned@[a], s) && !space_before(s, pruned@[a]) by {
            let j = choose|j: int| 0 <= j < original.len() && original[j] == s;
            assert(sorted@.to_multiset().count(s) > 0);
            assert(sorted@.contains(s));
            assert(unique@.contains(s));
            let k = choose|k: int| 0 <= k < unique@.len() && unique@[k] == s;
        }
    }
    *spaces = pruned;
}


/// The dimensions first recorded for `id`, if any.
pub open spec fn lookup_preference(prefs: Seq<(String, Dimensions)>, id: Seq<char>) -> Option<Dimensions>
    decreases prefs.len(),
{
    if prefs.len() == 0 {
        None
    } else {
        match lookup_preference(prefs.drop_last(), id) {
            Some(d) => Some(d),
            None => if prefs.last().0@ == id {
                Some(prefs.last().1)
            } else {
                None
            },
        }
    }
}

pub open spec fn preference_views(prefs: Seq<(String, Dimensions)>) -> Seq<(Seq<char>, Dimensions)> {
    prefs.map_values(|e: (String, Dimensions)| (e.0@, e.1))
}

proof fn lemma_lookup_step(prefs: Seq<(String, Dimensions)>, id: Seq<char>, i: int)
    requires
        0 <= i < prefs.len(),
    ensures
        lookup_preference(prefs.take(i + 1), id) == (match lookup_preference(prefs.take(i), id) {
            Some(d) => Some(d),
            None => if prefs[i].0@ == id {
                Some(prefs[i].1)
            } else {
                None
            },
        }),
{
    assert(prefs.take(i + 1).drop_last() =~= prefs.take(i));
}

/// The dimensions first recorded for `id`.
pub fn preferred_size(prefs: &Vec<(String, Dimensions)>, id: &String) -> (r: Option<Dimensions>)
    ensures
        r == lookup_preference(prefs@, id@),
{
    let mut i: usize = 0;
    while i < prefs.len()
        invariant
            i <= prefs@.len(),
            lookup_preference(prefs@.take(i as int), id@) is None,
        decreases prefs@.len() - i,
    {
        proof {
            lemma_lookup_step(prefs@, id@, i as int);
        }
        if prefs[i].0 == *id {
            proof {
                lemma_lookup_prefix(prefs@, id@, i + 1);
            }
            return Some(prefs[i].1);
        }
        i = i + 1;
    }
    proof {
        assert(prefs@.take(prefs@.len() as int) =~= prefs@);
    }
    None
}

proof fn lemma_lookup_prefix(prefs: Seq<(String, Dimensions)>, id: Seq<char>, n: int)
    requires
        0 <= n <= prefs.len(),
        lookup_preference(prefs.take(n), id) is Some,
    ensures
        lookup_preference(prefs, id) == lookup_preference(prefs.take(n), id),
    decreases prefs.len() - n,
{
    if n < prefs.len() {
        lemma_lookup_step(prefs, id, n);
        lemma_lookup_prefix(prefs, id, n + 1);
    } else {
        assert(prefs.take(n) =~= prefs);
    }
}

/// Every part of the split spaces lies inside one of the spaces it came from.
proof fn lemma_split_all_contained(spaces: Seq<FreeSpace>, occupied: FreeSpace)
    requires
        spaces_fit(spaces),
        space_fits(occupied),
    ensures
        forall|x: FreeSpace| #[trigger] split_all(spaces, occupied).contains(x) ==> exists|j: int| 0 <= j < spaces.len() && contains_space(spaces[j], x),
    decreases spaces.len(),
{
    if spaces.len() > 0 {
        let init = spaces.drop_last();
        lemma_split_all_contained(init, occupied);
        lemma_split_parts_inside(spaces.last(), occupied);
        assert forall|x: FreeSpace| #[trigger] split_all(spaces, occupied).contains(x) implies exists|j: int| 0 <= j < spaces.len() && contains_space(spaces[j], x) by {
            let a = split_all(init, occupied);
            let b = split_spec(spaces.last(), occupied);
            assert(split_all(spaces, occupied) == a + b);
            let k = choose|k: int| 0 <= k < (a + b).len() && (a + b)[k] == x;
            if k < a.len() {
                assert(a[k] == x);
                assert(a.contains(x));
                let j = choose|j: int| 0 <= j < init.len() && contains_space(init[j], x);
                assert(spaces[j] == init[j]);
            } else {
                assert(b[k - a.len()] == x);
                assert(contains_space(spaces.last(), x));
                assert(spaces[spaces.len() - 1] == spaces.last());
            }
        }
    }
}

/// Box `nb` is box `b` after `item` went to the candidate's place as step
/// `sequence`: the totals grow by the item, the placement is appended, the
/// free spaces are those around the item, pruned, and the item's product
/// remembers its orientation unless it already had one.
pub open spec fn placed_into(b: OpenBox, item: Item, candidate: PlacementCandidate, sequence: usize, nb: OpenBox) -> bool {
    &&& nb.instance_id == b.instance_id
    &&& nb.box_type_id == b.box_type_id
    &&& nb.size == b.size
    &&& nb.max_weight == b.max_weight
    &&& nb.total_weight == b.total_weight + item.weight
    &&& nb.used_volume == b.used_volume + volume_of(item.size)
    &&& nb.occupied_size == grow_to(b.occupied_size, candidate.position, candidate.size)
    &&& nb.placements@ == b.placements@.push(PlacedItem {
        item,
        position: candidate.position,
        size: candidate.size,
        orientation: candidate.orientation,
        supported_by: candidate.supported_by,
        sequence,
    })
    &&& is_pruned(nb.free_spaces@, split_all(b.free_spaces@, FreeSpace { position: candidate.position, size: candidate.size }))
    &&& preference_views(nb.preferred_orientations@) == (if lookup_preference(b.preferred_orientations@, item.product_id@) is Some {
        preference_views(b.preferred_orientations@)
    } else {
        preference_views(b.preferred_orientations@).push((item.product_id@, candidate.size))
    })
}

/// Every free space of the box is non-empty and lies inside the box.
pub open spec fn free_spaces_sound(b: OpenBox) -> bool {
    forall|i: int| 0 <= i < b.free_spaces@.len() ==> !is_empty_dims(#[trigger] b.free_spaces@[i].size)
        && inside(b.free_spaces@[i].position, b.free_spaces@[i].size, b.size)
}

/// The preference lookup, over the product ids taken by value.
pub open spec fn lookup_view(prefs: Seq<(Seq<char>, Dimensions)>, id: Seq<char>) -> Option<Dimensions>
    decreases prefs.len(),
{
    if prefs.len() == 0 {
        None
    } else {
        match lookup_view(prefs.drop_last(), id) {
            Some(d) => Some(d),
            None => if prefs.last().0 == id {
                Some(prefs.last().1)
            } else {
                None
            },
        }
    }
}

proof fn lemma_lookup_by_view(prefs: Seq<(String, Dimensions)>, id: Seq<char>)
    ensures
        lookup_preference(prefs, id) == lookup_view(preference_views(prefs), id),
    decreases prefs.len(),
{
    if prefs.len() > 0 {
        assert(preference_views(prefs.drop_last()) =~= preference_views(prefs).drop_last());
        lemma_lookup_by_view(prefs.drop_last(), id);
    }
}

/// A part of the split spaces comes from splitting one of the spaces.
proof fn lemma_split_all_member(spaces: Seq<FreeSpace>, o: FreeSpace, x: FreeSpace)
    requires
        split_all(spaces, o).contains(x),
    ensures
        exists|k: int| 0 <= k < spaces.len() && #[trigger] split_spec(spaces[k], o).contains(x),
    decreases spaces.len(),
{
    let init = split_all(spaces.drop_last(), o);
    let tail = split_spec(spaces.last(), o);
    let j = choose|j: int| 0 <= j < split_all(spaces, o).len() && split_all(spaces, o)[j] == x;
    if j < init.len() {
        assert(init[j] == x);
        lemma_split_all_member(spaces.drop_last(), o, x);
        let k = choose|k: int| 0 <= k < spaces.drop_last().len() && #[trigger] split_spec(spaces.drop_last()[k], o).contains(x);
        assert(spaces.drop_last()[k] == spaces[k]);
    } else {
        assert(tail[j - init.len()] == x);
        assert(split_spec(spaces[spaces.len() - 1], o).contains(x));
    }
}

/// After `place`, every free space of the box is non-empty, lies inside the
/// box and is clear of the item just placed; and the item's product keeps
/// the orientation it already had, or takes the one just used.
pub proof fn lemma_place_leaves_clear_free_spaces(
    b: OpenBox,
    item: Item,
    c: PlacementCandidate,
    sequence: usize,
    nb: OpenBox,
)
    requires
        placed_into(b, item, c, sequence, nb),
        edges_bounded(b.size),
        free_spaces_sound(b),
        extent_fits(c.position, c.size),
    ensures
        free_spaces_sound(nb),
        forall|i: int| 0 <= i < nb.free_spaces@.len() ==> !regions_intersect(
            #[trigger] nb.free_spaces@[i].position,
            nb.free_spaces@[i].size,
            c.position,
            c.size,
        ),
        lookup_preference(nb.preferred_orientations@, item.product_id@) == (
            if lookup_preference(b.preferred_orientations@, item.product_id@) is Some {
                lookup_preference(b.preferred_orientations@, item.product_id@)
            } else {
                Some(c.size)
            }),
{
    let o = FreeSpace { position: c.position, size: c.size };
    let spaces = b.free_spaces@;
    assert forall|i: int| 0 <= i < nb.free_spaces@.len() implies !is_empty_dims(#[trigger] nb.free_spaces@[i].size)
        && inside(nb.free_spaces@[i].position, nb.free_spaces@[i].size, nb.size)
        && !regions_intersect(nb.free_spaces@[i].position, nb.free_spaces@[i].size, c.position, c.size) by {
        let x = nb.free_spaces@[i];
        assert(split_all(spaces, o).contains(x));
        lemma_split_all_member(spaces, o, x);
        let k = choose|k: int| 0 <= k < spaces.len() && #[trigger] split_spec(spaces[k], o).contains(x);
        let sk = spaces[k];
        assert(!is_empty_dims(sk.size) && inside(sk.position, sk.size, b.size));
        assert(space_fits(sk));
        assert(space_fits(o));
        lemma_split_parts_clear(sk, o);
        lemma_split_parts_inside(sk, o);
        let j = choose|j: int| 0 <= j < split_spec(sk, o).len() && split_spec(sk, o)[j] == x;
        assert(!is_empty_dims(split_spec(sk, o)[j].size));
        assert(region_contains(sk.position, sk.size, split_spec(sk, o)[j].position, split_spec(sk, o)[j].size));
    }
    lemma_lookup_by_view(b.preferred_orientations@, item.product_id@);
    lemma_lookup_by_view(nb.preferred_orientations@, item.product_id@);
    let v = preference_views(b.preferred_orientations@);
    if lookup_preference(b.preferred_orientations@, item.product_id@) is None {
        assert(v.push((item.product_id@, c.size)).drop_last() =~= v);
    }
}

/// The box's own extents are bounded and what it holds lies inside it.
pub open spec fn box_bounded(b: OpenBox) -> bool {
    &&& edges_bounded(b.size)
    &&& forall|i: int| 0 <= i < b.free_spaces@.len() ==> #[trigger] inside(b.free_spaces@[i].position, b.free_spaces@[i].size, b.size)
    &&& forall|k: int| 0 <= k < b.placements@.len() ==> #[trigger] inside(b.placements@[k].position, b.placements@[k].size, b.size)
    &&& b.placements@.len() <= ITEM_LIMIT
    &&& b.occupied_size.width <= b.size.width
    &&& b.occupied_size.height <= b.size.height
    &&& b.occupied_size.depth <= b.size.depth
}

proof fn lemma_occupied_inside(placed: Seq<PlacedItem>, bounds: Dimensions)
    requires
        forall|k: int| 0 <= k < placed.len() ==> #[trigger] inside(placed[k].position, placed[k].size, bounds),
    ensures
        occupied_fold(placed).width <= bounds.width,
        occupied_fold(placed).height <= bounds.height,
        occupied_fold(placed).depth <= bounds.depth,
    decreases placed.len(),
{
    if placed.len() > 0 {
        let init = placed.drop_last();
        assert forall|k: int| 0 <= k < init.len() implies #[trigger] inside(init[k].position, init[k].size, bounds) by {
            assert(init[k] == placed[k]);
        }
        lemma_occupied_inside(init, bounds);
        assert(inside(placed[placed.len() - 1].position, placed[placed.len() - 1].size, bounds));
    }
}

/// A well-formed box whose item count is within the limit is bounded.
pub proof fn lemma_wf_bounded(b: OpenBox)
    requires
        box_wf(b),
        b.placements@.len() <= ITEM_LIMIT,
    ensures
        box_bounded(b),
        spaces_fit(b.free_spaces@),
        placements_bounded(b.placements@),
{
    assert forall|k: int| 0 <= k < b.placements@.len() implies #[trigger] inside(b.placements@[k].position, b.placements@[k].size, b.size) by {
        assert(placement_sound(b.placements@[k], b.size, b.placements@.take(k)));
    }
    lemma_occupied_inside(b.placements@, b.size);
    assert forall|i: int| 0 <= i < b.free_spaces@.len() implies #[trigger] space_fits(b.free_spaces@[i]) by {
        assert(inside(b.free_spaces@[i].position, b.free_spaces@[i].size, b.size));
    }
    assert forall|k: int| 0 <= k < b.placements@.len() implies #[trigger] extent_bounded(b.placements@[k].position, b.placements@[k].size) by {
        assert(inside(b.placements@[k].position, b.placements@[k].size, b.size));
    }
}

impl OpenBox {
    /// An empty box of the given stock kind: one free space filling it.
    pub fn new(instance_id: String, stock: &StockBox) -> (b: Self)
        ensures
            b.instance_id == instance_id,
            b.box_type_id@ == stock.box_type_id@,
            b.size == stock.size,
            b.max_weight == stock.max_weight,
            b.total_weight == 0,
            b.used_volume == 0,
            b.occupied_size == (Dimensions { width: 0, height: 0, depth: 0 }),
            b.free_spaces@ == seq![FreeSpace { position: Position { x: 0, y: 0, z: 0 }, size: stock.size }],
            b.preferred_orientations@.len() == 0,
            b.placements@.len() == 0,
            edges_bounded(stock.size) ==> box_wf(b),
            !is_empty_dims(stock.size) ==> free_spaces_sound(b),
    {
        let b = OpenBox {
            instance_id,
            box_type_id: stock.box_type_id.clone(),
            size: stock.size,
            max_weight: stock.max_weight,
            total_weight: 0,
            used_volume: 0,
            occupied_size: Dimensions { width: 0, height: 0, depth: 0 },
            free_spaces: vec![FreeSpace { position: Position { x: 0, y: 0, z: 0 }, size: stock.size }],
            preferred_orientations: Vec::new(),
            placements: Vec::new(),
        };
        proof {
            assert(b.free_spaces@ =~= seq![FreeSpace { position: Position { x: 0, y: 0, z: 0 }, size: stock.size }]);
        }
        b
    }

    /// Puts the item at the candidate's place: the free spaces are split
    /// around it and pruned, the item's orientation is remembered for its
    /// product unless one already is, and weight, volume and occupied extent
    /// grow. A sound candidate keeps a well-formed box well-formed.
    pub fn place(&mut self, item: Item, candidate: PlacementCandidate, sequence: usize)
        requires
            spaces_fit(old(self).free_spaces@),
            extent_fits(candidate.position, candidate.size),
            volume_of(item.size) <= u64::MAX,
            old(self).used_volume + volume_of(item.size) <= u64::MAX,
            old(self).total_weight + item.weight <= u64::MAX,
        ensures
            placed_into(*old(self), item, candidate, sequence, *final(self)),
            lookup_preference(final(self).preferred_orientations@, item.product_id@) is Some,
            box_wf(*old(self)) && candidate_sound(*old(self), item, candidate) ==> box_wf(*final(self)),
    {
        let occupied = FreeSpace { position: candidate.position, size: candidate.size };
        let ghost old_self = *self;
        let mut old_spaces: Vec<FreeSpace> = Vec::new();
        std::mem::swap(&mut old_spaces, &mut self.free_spaces);
        let mut parts: Vec<FreeSpace> = Vec::new();
        let mut i: usize = 0;
        while i < old_spaces.len()
            invariant
                i <= old_spaces@.len(),
                old_spaces@ == old_self.free_spaces@,
                spaces_fit(old_spaces@),
                space_fits(occupied),
                parts@ == split_all(old_spaces@.take(i as int), occupied),
            decreases old_spaces@.len() - i,
        {
            proof {
                assert(old_spaces@.take(i + 1).drop_last() =~= old_spaces@.take(i as int));
                assert(space_fits(old_spaces@[i as int]));
            }
            let mut piece = old_spaces[i].split_around(occupied);
            parts.append(&mut piece);
            i = i + 1;
        }
        proof {
            assert(old_spaces@.take(old_spaces@.len() as int) =~= old_spaces@);
            lemma_split_all_contained(old_spaces@, occupied);
            assert forall|k: int| 0 <= k < parts@.len() implies #[trigger] space_fits(parts@[k]) by {
                assert(parts@.contains(parts@[k]));
                let j = choose|j: int| 0 <= j < old_spaces@.len() && contains_space(old_spaces@[j], parts@[k]);
                assert(space_fits(old_spaces@[j]));
            }
        }
        prune_free_spaces(&mut parts);
        self.free_spaces = parts;
        let known = preferred_size(&self.preferred_orientations, &item.product_id);
        if known.is_none() {
            let ghost before = self.preferred_orientations@;
            self.preferred_orientations.push((item.product_id.clone(), candidate.size));
            proof {
                assert(preference_views(self.preferred_orientations@) =~= preference_views(before).push((item.product_id@, candidate.size)));
                assert(self.preferred_orientations@.drop_last() =~= before);
            }
        }
        self.total_weight = self.total_weight + item.weight;
        self.used_volume = self.used_volume + item.volume();
        let right = candidate.position.x + candidate.size.width;
        let top = candidate.position.y + candidate.size.height;
        let front = candidate.position.z + candidate.size.depth;
        if right > self.occupied_size.width {
            self.occupied_size.width = right;
        }
        if top > self.occupied_size.height {
            self.occupied_size.height = top;
        }
        if front > self.occupied_size.depth {
            self.occupied_size.depth = front;
        }
        let ghost old_placements = self.placements@;
        self.placements.push(PlacedItem {
            item,
            position: candidate.position,
            size: candidate.size,
            orientation: candidate.orientation,
            supported_by: candidate.supported_by,
            sequence,
        });
        proof {
            let new_placed = self.placements@;
            assert(new_placed.drop_last() =~= old_placements);
            if box_wf(old_self) && candidate_sound(old_self, item, candidate) {
                let p = new_placed.last();
                assert forall|k: int| 0 <= k < new_placed.len() implies #[trigger] placement_sound(new_placed[k], self.size, new_placed.take(k)) by {
                    if k < old_placements.len() {
                        assert(new_placed.take(k) =~= old_placements.take(k));
                        assert(placement_sound(old_placements[k], old_self.size, old_placements.take(k)));
                    } else {
                        assert(new_placed.take(k) =~= old_placements);
                        let f = choose|f: int| 0 <= f < old_self.free_spaces@.len() && #[trigger] fits_at(old_self.free_spaces@[f], candidate.position, candidate.size);
                        assert(inside(old_self.free_spaces@[f].position, old_self.free_spaces@[f].size, old_self.size));
                    }
                }
                assert forall|i: int| 0 <= i < self.free_spaces@.len() implies #[trigger] inside(self.free_spaces@[i].position, self.free_spaces@[i].size, self.size) by {
                    let x = self.free_spaces@[i];
                    assert(split_all(old_spaces@, occupied).contains(x));
                    let j = choose|j: int| 0 <= j < old_spaces@.len() && contains_space(old_spaces@[j], x);
                    assert(inside(old_spaces@[j].position, old_spaces@[j].size, old_self.size));
                }
            }
        }
    }
}

/// Contact with the box walls: each axis on which the region touches a wall
/// contributes the area of its face.
pub open spec fn wall_contact(position: Position, size: Dimensions, bounds: Dimensions) -> int {
    (if position.x == 0 || position.x + size.width == bounds.width {
        size.height * size.depth
    } else {
        0
    }) + (if position.y == 0 || position.y + size.height == bounds.height {
        size.width * size.depth
    } else {
        0
    }) + (if position.z == 0 || position.z + size.depth == bounds.depth {
        size.width * size.height
    } else {
        0
    })
}

pub open spec fn span_overlap(a: int, la: int, b: int, lb: int) -> int {
    overlap_spec(a, a + la, b, b + lb)
}

/// Contact with one placed item: on each axis where the faces meet, the
/// overlap of the two other axes.
pub open spec fn pair_contact(position: Position, size: Dimensions, p: PlacedItem) -> int {
    let ox = span_overlap(position.x as int, size.width as int, p.position.x as int, p.size.width as int);
    let oy = span_overlap(position.y as int, size.height as int, p.position.y as int, p.size.height as int);
    let oz = span_overlap(position.z as int, size.depth as int, p.position.z as int, p.size.depth as int);
    (if position.x + size.width == p.position.x || p.position.x + p.size.width == position.x {
        oy * oz
    } else {
        0
    }) + (if position.y + size.height == p.position.y || p.position.y + p.size.height == position.y {
        ox * oz
    } else {
        0
    }) + (if position.z + size.depth == p.position.z || p.position.z + p.size.depth == position.z {
        ox * oy
    } else {
        0
    })
}

pub open spec fn contact_sum(position: Position, size: Dimensions, placed: Seq<PlacedItem>) -> int
    decreases placed.len(),
{
    if placed.len() == 0 {
        0
    } else {
        contact_sum(position, size, placed.drop_last()) + pair_contact(position, size, placed.last())
    }
}

/// The area through which the region would touch the walls and the items.
pub open spec fn contact_spec(position: Position, size: Dimensions, b: OpenBox) -> int {
    wall_contact(position, size, b.size) + contact_sum(position, size, b.placements@)
}

pub open spec fn face_bound() -> int {
    (MAX_EDGE as int) * (MAX_EDGE as int)
}

proof fn lemma_product_bound(a: int, b: int)
    requires
        0 <= a <= MAX_EDGE,
        0 <= b <= MAX_EDGE,
    ensures
        0 <= a * b <= face_bound(),
{
    let m = MAX_EDGE as int;
    assert(0 <= a * b <= m * m) by (nonlinear_arith)
        requires 0 <= a <= m, 0 <= b <= m;
}

fn face(a: u32, b: u32) -> (r: u64)
    requires
        a <= MAX_EDGE,
        b <= MAX_EDGE,
    ensures
        r == a * b,
        r <= face_bound(),
{
    proof {
        lemma_product_bound(a as int, b as int);
    }
    a as u64 * b as u64
}

/// The area through which the region touches the box walls and the placed items.
pub fn contact_area(position: Position, size: Dimensions, open_box: &OpenBox) -> (area: u64)
    requires
        box_bounded(*open_box),
        inside(position, size, open_box.size),
    ensures
        area == contact_spec(position, size, *open_box),
        area <= 3 * face_bound() * (open_box.placements@.len() + 1),
{
    let mut area: u64 = 0;
    if position.x == 0 || position.x + size.width == open_box.size.width {
        area = area + face(size.height, size.depth);
    }
    if position.y == 0 || position.y + size.height == open_box.size.height {
        area = area + face(size.width, size.depth);
    }
    if position.z == 0 || position.z + size.depth == open_box.size.depth {
        area = area + face(size.width, size.height);
    }
    let placements = &open_box.placements;
    let n = placements.len();
    let mut i: usize = 0;
    while i < n
        invariant
            i <= n,
            n == placements@.len(),
            n <= ITEM_LIMIT,
            box_bounded(*open_box),
            placements == &open_box.placements,
            inside(position, size, open_box.size),
            area == wall_contact(position, size, open_box.size) + contact_sum(position, size, placements@.take(i as int)),
            area <= 3 * face_bound() * (i + 1),
        decreases n - i,
    {
        let placed = &placements[i];
        proof {
            assert(placements@.take(i + 1).drop_last() =~= placements@.take(i as int));
            assert(inside(placements@[i as int].position, placements@[i as int].size, open_box.size));
        }
        let ox = overlap_length(position.x, position.x + size.width, placed.position.x, placed.position.x + placed.size.width);
        let oy = overlap_length(position.y, position.y + size.height, placed.position.y, placed.position.y + placed.size.height);
        let oz = overlap_length(position.z, position.z + size.depth, placed.position.z, placed.position.z + placed.size.depth);
        let mut pair: u64 = 0;
        if position.x + size.width == placed.position.x || placed.position.x + placed.size.width == position.x {
            pair = pair + face(oy, oz);
        }
        if position.y + size.height == placed.position.y || placed.position.y + placed.size.height == position.y {
            pair = pair + face(ox, oz);
        }
        if position.z + size.depth == placed.position.z || placed.position.z + placed.size.depth == position.z {
            pair = pair + face(ox, oy);
        }
        proof {
            assert(pair == pair_contact(position, size, placements@[i as int]));
            assert(3 * face_bound() * (i + 1) + 3 * face_bound() == 3 * face_bound() * (i + 2)) by (nonlinear_arith);
            assert(3 * face_bound() * (i + 2) <= 3 * face_bound() * (ITEM_LIMIT + 1)) by (nonlinear_arith)
                requires i + 1 <= ITEM_LIMIT;
        }
        area = area + pair;
        i = i + 1;
    }
    proof {
        assert(placements@.take(n as int) =~= placements@);
    }
    area
}

/// How a placement inside a box is chosen.
#[derive(Clone, Copy, Debug, PartialEq, Eq, Structural)]
pub enum PlacementPolicy {
    /// The tightest free space first.
    BestFit,
    /// Keep the product's first orientation and maximise the grid capacity.
    GridCapacity,
}

/// Lexicographic order on score sequences of equal length.
pub open spec fn lex_less(a: Seq<int>, b: Seq<int>) -> bool
    decreases a.len(),
{
    if a.len() == 0 || b.len() == 0 {
        false
    } else if a[0] != b[0] {
        a[0] < b[0]
    } else {
        lex_less(a.drop_first(), b.drop_first())
    }
}

pub open spec fn score_view(v: Seq<u64>) -> Seq<int> {
    v.map_values(|x: u64| x as int)
}

proof fn lemma_lex_step(a: Seq<int>, b: Seq<int>, i: int)
    requires
        0 <= i < a.len(),
        i < b.len(),
        a[i] == b[i],
    ensures
        lex_less(a.skip(i), b.skip(i)) == lex_less(a.skip(i + 1), b.skip(i + 1)),
{
    assert(a.skip(i).drop_first() =~= a.skip(i + 1));
    assert(b.skip(i).drop_first() =~= b.skip(i + 1));
}

/// The lexicographic order is a strict total order on sequences of one length.
pub proof fn lemma_lex_order(a: Seq<int>, b: Seq<int>, c: Seq<int>)
    requires
        a.len() == b.len(),
        b.len() == c.len(),
    ensures
        !lex_less(a, a),
        a == b || lex_less(a, b) || lex_less(b, a),
        !(lex_less(a, b) && lex_less(b, a)),
        lex_less(a, b) && lex_less(b, c) ==> lex_less(a, c),
    decreases a.len(),
{
    if a.len() > 0 {
        lemma_lex_order(a.drop_first(), b.drop_first(), c.drop_first());
        if a[0] == b[0] && a.drop_first() == b.drop_first() {
            assert forall|i: int| 0 <= i < a.len() implies a[i] == b[i] by {
                if i > 0 {
                    assert(a[i] == a.drop_first()[i - 1]);
                    assert(b[i] == b.drop_first()[i - 1]);
                }
            }
            assert(a =~= b);
        }
    } else {
        assert(a =~= b);
    }
}

/// Whether score `a` is lexicographically smaller than score `b`.
pub fn score_less(a: &Vec<u64>, b: &Vec<u64>) -> (r: bool)
    ensures
        r == lex_less(score_view(a@), score_view(b@)),
{
    let ghost av = score_view(a@);
    let ghost bv = score_view(b@);
    proof {
        assert(av.skip(0) =~= av);
        assert(bv.skip(0) =~= bv);
    }
    let mut i: usize = 0;
    while i < a.len() && i < b.len()
        invariant
            av == score_view(a@),
            bv == score_view(b@),
            i <= a@.len(),
            i <= b@.len(),
            lex_less(av, bv) == lex_less(av.skip(i as int), bv.skip(i as int)),
        decreases a@.len() - i,
    {
        if a[i] != b[i] {
            proof {
                assert(av.skip(i as int)[0] == av[i as int]);
                assert(bv.skip(i as int)[0] == bv[i as int]);
            }
            return a[i] < b[i];
        }
        proof {
            lemma_lex_step(av, bv, i as int);
        }
        i = i + 1;
    }
    false
}

/// The score of putting an item of shape `size` at the corner of free space
/// `f`: smaller is better.
pub open spec fn placement_score(b: OpenBox, item: Item, policy: PlacementPolicy, f: FreeSpace, size: Dimensions) -> Seq<int> {
    let position = f.position;
    let contact = contact_spec(position, size, b);
    let residual = (f.size.width - size.width) + (f.size.height - size.height) + (f.size.depth - size.depth);
    let waste = volume_of(f.size) - volume_of(size);
    let umax = u64::MAX as int;
    match policy {
        PlacementPolicy::BestFit => seq![0, 0, waste, residual, position.y as int, umax - contact, position.z as int, position.x as int, 0, 0],
        PlacementPolicy::GridCapacity => {
            let change: int = match lookup_preference(b.preferred_orientations@, item.product_id@) {
                Some(d) => if d != size { 1 } else { 0 },
                None => 0,
            };
            let grid = umax - crate::geometry::grid_capacity_spec(b.size, size, crate::placement::is_weak_item(item));
            let prospective = grow_to(b.occupied_size, position, size);
            seq![change, grid, position.y as int, crate::geometry::max_edge_of(prospective), volume_of(prospective), position.z as int, position.x as int, umax - contact, waste, residual]
        },
    }
}

proof fn lemma_volume_monotone(a: Dimensions, b: Dimensions)
    requires
        a.width <= b.width,
        a.height <= b.height,
        a.depth <= b.depth,
    ensures
        volume_of(a) <= volume_of(b),
{
    assert(a.width * a.height <= b.width * b.height) by (nonlinear_arith)
        requires a.width <= b.width, a.height <= b.height, 0 <= a.width, 0 <= a.height;
    assert(a.width * a.height * a.depth <= b.width * b.height * b.depth) by (nonlinear_arith)
        requires a.width * a.height <= b.width * b.height, a.depth <= b.depth, 0 <= a.width * a.height, 0 <= a.depth;
}

/// The item turned to `size` fits at the corner of free space `f` of the
/// box: within the space, clear of and under no placed item, and resting on
/// the floor or fully on items below with no weak item beneath.
pub open spec fn placement_ok(b: OpenBox, f: FreeSpace, size: Dimensions) -> bool {
    &&& size.width <= f.size.width
    &&& size.height <= f.size.height
    &&& size.depth <= f.size.depth
    &&& !collides_spec(f.position, size, b.placements@)
    &&& !below_spec(f.position, size, b.placements@)
    &&& (f.position.y == 0 || (!weak_beneath(f.position, size, b.placements@)
        && union_area(support_rects(f.position, size, b.placements@)) >= size.width * size.depth))
}

/// Option `(fi, oi)`: free space `fi` with distinct orientation `oi`.
pub open spec fn option_ok(b: OpenBox, item: Item, fi: int, oi: int) -> bool {
    &&& 0 <= fi < b.free_spaces@.len()
    &&& 0 <= oi < distinct_orientations(item.size).len()
    &&& placement_ok(b, b.free_spaces@[fi], distinct_orientations(item.size)[oi].1)
}

pub open spec fn option_score(b: OpenBox, item: Item, policy: PlacementPolicy, fi: int, oi: int) -> Seq<int> {
    placement_score(b, item, policy, b.free_spaces@[fi], distinct_orientations(item.size)[oi].1)
}

/// Option `(fi, oi)` comes before `(gf, go)`: free space first, then orientation.
pub open spec fn option_before(fi: int, oi: int, gf: int, go: int) -> bool {
    fi < gf || (fi == gf && oi < go)
}

/// `(fi, oi)` is the first option of smallest score.
pub open spec fn first_best(b: OpenBox, item: Item, policy: PlacementPolicy, fi: int, oi: int) -> bool {
    &&& option_ok(b, item, fi, oi)
    &&& forall|gf: int, go: int| #[trigger] option_ok(b, item, gf, go)
        ==> !lex_less(option_score(b, item, policy, gf, go), option_score(b, item, policy, fi, oi))
    &&& forall|gf: int, go: int| #[trigger] option_ok(b, item, gf, go) && option_before(gf, go, fi, oi)
        ==> lex_less(option_score(b, item, policy, fi, oi), option_score(b, item, policy, gf, go))
}

/// Under `BestFit` the place chosen for an item wastes no more free-space
/// volume than any other place the box offers: for every free space and
/// turn the item could take instead, the candidate's `free_space_waste` is
/// at most that option's free-space volume left over.
pub proof fn lemma_best_fit_wastes_least(b: OpenBox, item: Item, fi: int, oi: int, c: PlacementCandidate)
    requires
        first_best(b, item, PlacementPolicy::BestFit, fi, oi),
        candidate_at(b, item, fi, oi, c),
    ensures
        forall|gf: int, go: int| #[trigger] option_ok(b, item, gf, go) ==> c.free_space_waste
            <= volume_of(b.free_spaces@[gf].size) - volume_of(distinct_orientations(item.size)[go].1),
{
    assert forall|gf: int, go: int| #[trigger] option_ok(b, item, gf, go) implies c.free_space_waste
        <= volume_of(b.free_spaces@[gf].size) - volume_of(distinct_orientations(item.size)[go].1) by {
        let sg = option_score(b, item, PlacementPolicy::BestFit, gf, go);
        let sf = option_score(b, item, PlacementPolicy::BestFit, fi, oi);
        assert(!lex_less(sg, sf));
        assert(sg[0] == sf[0] && sg[1] == sf[1]);
        assert(sg.drop_first().drop_first()[0] == sg[2]);
        assert(sf.drop_first().drop_first()[0] == sf[2]);
        if sg[2] < sf[2] {
            assert(lex_less(sg.drop_first().drop_first(), sf.drop_first().drop_first()));
            assert(lex_less(sg.drop_first(), sf.drop_first()));
            assert(lex_less(sg, sf));
        }
    }
}

/// The candidate describes option `(fi, oi)`.
pub open spec fn candidate_at(b: OpenBox, item: Item, fi: int, oi: int, c: PlacementCandidate) -> bool {
    let f = b.free_spaces@[fi];
    let shape = distinct_orientations(item.size)[oi];
    &&& c.position == f.position
    &&& c.size == shape.1
    &&& c.orientation == shape.0
    &&& c.free_space_waste == volume_of(f.size) - volume_of(shape.1)
    &&& c.contact_area == contact_spec(f.position, shape.1, b)
}

/// The box can take the item: within its weight limit, with some option.
pub open spec fn can_place(b: OpenBox, item: Item) -> bool {
    &&& b.total_weight + item.weight <= b.max_weight
    &&& exists|fi: int, oi: int| #[trigger] option_ok(b, item, fi, oi)
}

pub proof fn lemma_first_best_unique(b: OpenBox, item: Item, policy: PlacementPolicy, fi: int, oi: int, gf: int, go: int)
    requires
        first_best(b, item, policy, fi, oi),
        first_best(b, item, policy, gf, go),
    ensures
        fi == gf && oi == go,
{
    if option_before(fi, oi, gf, go) {
        assert(lex_less(option_score(b, item, policy, fi, oi), option_score(b, item, policy, gf, go)));
        assert(option_ok(b, item, fi, oi));
    } else if option_before(gf, go, fi, oi) {
        assert(lex_less(option_score(b, item, policy, gf, go), option_score(b, item, policy, fi, oi)));
        assert(option_ok(b, item, gf, go));
    }
}

/// Options before `(fi, oi)` in enumeration order.
pub open spec fn enumerated(fi: int, oi: int, gf: int, go: int) -> bool {
    gf < fi || (gf == fi && go < oi)
}

/// `best` holds the first option of smallest score among those enumerated
/// before `(fi, oi)`, or nothing when none of them is an option.
pub open spec fn best_so_far(
    b: OpenBox,
    item: Item,
    policy: PlacementPolicy,
    fi: int,
    oi: int,
    best: Option<(PlacementCandidate, Vec<u64>)>,
    at: (int, int),
) -> bool {
    match best {
        None => forall|gf: int, go: int| #[trigger] option_ok(b, item, gf, go) ==> !enumerated(fi, oi, gf, go),
        Some(bc) => {
            &&& option_ok(b, item, at.0, at.1)
            &&& enumerated(fi, oi, at.0, at.1)
            &&& candidate_at(b, item, at.0, at.1, bc.0)
            &&& candidate_sound(b, item, bc.0)
            &&& score_view(bc.1@) == option_score(b, item, policy, at.0, at.1)
            &&& forall|gf: int, go: int| #[trigger] option_ok(b, item, gf, go) && enumerated(fi, oi, gf, go)
                ==> !lex_less(option_score(b, item, policy, gf, go), option_score(b, item, policy, at.0, at.1))
            &&& forall|gf: int, go: int| #[trigger] option_ok(b, item, gf, go) && enumerated(fi, oi, gf, go)
                && option_before(gf, go, at.0, at.1)
                ==> lex_less(option_score(b, item, policy, at.0, at.1), option_score(b, item, policy, gf, go))
        },
    }
}

/// The best place for the item in the box under the policy: over every free
/// space and every distinct orientation of the item that fits there without
/// colliding, without lying under an item and with full support, the first
/// one of smallest score. `None` when the item is too heavy for the box or
/// no such place exists.
pub fn find_placement(open_box: &OpenBox, item: &Item, policy: PlacementPolicy) -> (r: Option<PlacementCandidate>)
    requires
        box_bounded(*open_box),
        item_shape_ok(item.size),
    ensures
        r is Some <==> can_place(*open_box, *item),
        r matches Some(c) ==> candidate_sound(*open_box, *item, c),
        r matches Some(c) ==> exists|fi: int, oi: int| #[trigger] first_best(*open_box, *item, policy, fi, oi)
            && candidate_at(*open_box, *item, fi, oi, c),
        r matches Some(c) ==> (policy == PlacementPolicy::BestFit ==> forall|gf: int, go: int|
            #[trigger] option_ok(*open_box, *item, gf, go) ==> c.free_space_waste
                <= volume_of(open_box.free_spaces@[gf].size) - volume_of(distinct_orientations(item.size)[go].1)),
{
    match open_box.total_weight.checked_add(item.weight) {
        Some(total) => {
            if total > open_box.max_weight {
                return None;
            }
        },
        None => {
            return None;
        },
    }
    let ghost b = *open_box;
    let shapes = orientations(item.size);
    let weak = item.is_weak();
    let preferred = preferred_size(&open_box.preferred_orientations, &item.product_id);
    proof {
        lemma_placements_bounded(b);
    }
    let mut best: Option<(PlacementCandidate, Vec<u64>)> = None;
    let ghost mut at: (int, int) = (0, 0);
    let mut fi: usize = 0;
    while fi < open_box.free_spaces.len()
        invariant
            b == *open_box,
            box_bounded(b),
            placements_bounded(b.placements@),
            crate::placement::placements_fit(b.placements@),
            item_shape_ok(item.size),
            b.total_weight + item.weight <= b.max_weight,
            shapes@ == crate::geometry::distinct_orientations(item.size),
            weak == crate::placement::is_weak_item(*item),
            preferred == lookup_preference(b.preferred_orientations@, item.product_id@),
            fi <= b.free_spaces@.len(),
            best_so_far(b, *item, policy, fi as int, 0, best, at),
        decreases b.free_spaces@.len() - fi,
    {
        let free_space = open_box.free_spaces[fi];
        proof {
            assert(inside(b.free_spaces@[fi as int].position, b.free_spaces@[fi as int].size, b.size));
        }
        let mut oi: usize = 0;
        while oi < shapes.len()
            invariant
                b == *open_box,
                box_bounded(b),
                placements_bounded(b.placements@),
                crate::placement::placements_fit(b.placements@),
                item_shape_ok(item.size),
                b.total_weight + item.weight <= b.max_weight,
                shapes@ == crate::geometry::distinct_orientations(item.size),
                weak == crate::placement::is_weak_item(*item),
                preferred == lookup_preference(b.preferred_orientations@, item.product_id@),
                fi < b.free_spaces@.len(),
                free_space == b.free_spaces@[fi as int],
                inside(free_space.position, free_space.size, b.size),
                oi <= shapes@.len(),
                best_so_far(b, *item, policy, fi as int, oi as int, best, at),
            decreases shapes@.len() - oi,
        {
            let (orientation, size) = shapes[oi];
            let ghost here: (int, int) = (fi as int, oi as int);
            proof {
                lemma_distinct_orientations_oriented(item.size, oi as int);
                assert forall|gf: int, go: int| enumerated(fi as int, oi + 1, gf, go)
                    <==> (enumerated(fi as int, oi as int, gf, go) || (gf == fi && go == oi)) by {}
            }
            oi = oi + 1;
            if size.width > free_space.size.width || size.height > free_space.size.height
                || size.depth > free_space.size.depth {
                proof {
                    assert(!option_ok(b, *item, here.0, here.1));
                }
                continue;
            }
            let position = free_space.position;
            if collides(position, size, open_box.placements.as_slice())
                || is_below_existing_product(position, size, open_box.placements.as_slice()) {
                proof {
                    assert(!option_ok(b, *item, here.0, here.1));
                }
                continue;
            }
            let supported_by = match support_for(position, size, open_box.placements.as_slice()) {
                Some(v) => v,
                None => {
                    proof {
                        assert(!option_ok(b, *item, here.0, here.1));
                    }
                    continue;
                },
            };
            let contact = contact_area(position, size, open_box);
            proof {
                lemma_volume_monotone(size, free_space.size);
                crate::geometry::lemma_bounded_volume(free_space.size);
                assert(3 * face_bound() * (b.placements@.len() + 1) <= 3 * face_bound() * (ITEM_LIMIT + 1)) by (nonlinear_arith)
                    requires b.placements@.len() <= ITEM_LIMIT;
            }
            let residual_edges = (free_space.size.width - size.width) as u64 + (free_space.size.height - size.height) as u64
                + (free_space.size.depth - size.depth) as u64;
            let free_space_waste = free_space.volume() - size.volume();
            let closeness = u64::MAX - contact;
            let score = match policy {
                PlacementPolicy::BestFit => vec![
                    0,
                    0,
                    free_space_waste,
                    residual_edges,
                    position.y as u64,
                    closeness,
                    position.z as u64,
                    position.x as u64,
                    0,
                    0,
                ],
                PlacementPolicy::GridCapacity => {
                    let change: u64 = match preferred {
                        Some(d) => if d != size { 1 } else { 0 },
                        None => 0,
                    };
                    let grid = u64::MAX - grid_capacity(open_box.size, size, weak);
                    let pw = if open_box.occupied_size.width >= position.x + size.width { open_box.occupied_size.width } else { position.x + size.width };
                    let ph = if open_box.occupied_size.height >= position.y + size.height { open_box.occupied_size.height } else { position.y + size.height };
                    let pd = if open_box.occupied_size.depth >= position.z + size.depth { open_box.occupied_size.depth } else { position.z + size.depth };
                    let prospective = Dimensions { width: pw, height: ph, depth: pd };
                    proof {
                        crate::geometry::lemma_bounded_volume(prospective);
                        assert(prospective == grow_to(b.occupied_size, position, size));
                    }
                    vec![
                        change,
                        grid,
                        position.y as u64,
                        prospective.max_edge() as u64,
                        prospective.volume(),
                        position.z as u64,
                        position.x as u64,
                        closeness,
                        free_space_waste,
                        residual_edges,
                    ]
                },
            };
            let candidate = PlacementCandidate {
                position,
                size,
                orientation,
                supported_by,
                free_space_waste,
                contact_area: contact,
            };
            proof {
                assert(fits_at(b.free_spaces@[fi as int], candidate.position, candidate.size));
                assert(candidate_sound(b, *item, candidate));
                assert(option_ok(b, *item, here.0, here.1));
                assert(candidate_at(b, *item, here.0, here.1, candidate));
                assert(score_view(score@) =~= option_score(b, *item, policy, here.0, here.1));
            }
            let better = match &best {
                Some(current) => score_less(&score, &current.1),
                None => true,
            };
            proof {
                let s_here = option_score(b, *item, policy, here.0, here.1);
                assert(s_here.len() == 10);
                if best is Some {
                    let s_at = option_score(b, *item, policy, at.0, at.1);
                    assert(s_at.len() == 10);
                    assert forall|gf: int, go: int| #[trigger] option_ok(b, *item, gf, go)
                        implies option_score(b, *item, policy, gf, go).len() == 10 by {}
                    if better {
                        assert forall|gf: int, go: int| #[trigger] option_ok(b, *item, gf, go) && enumerated(fi as int, oi as int, gf, go)
                            implies !lex_less(option_score(b, *item, policy, gf, go), s_here)
                                && (option_before(gf, go, here.0, here.1) ==> lex_less(s_here, option_score(b, *item, policy, gf, go))) by {
                            let s_g = option_score(b, *item, policy, gf, go);
                            if gf == here.0 && go == here.1 {
                                lemma_lex_order(s_here, s_here, s_here);
                            } else {
                                lemma_lex_order(s_g, s_here, s_at);
                                lemma_lex_order(s_here, s_g, s_at);
                            }
                        }
                    } else {
                        lemma_lex_order(s_here, s_at, s_at);
                        assert forall|gf: int, go: int| #[trigger] option_ok(b, *item, gf, go) && enumerated(fi as int, oi as int, gf, go)
                            && option_before(gf, go, at.0, at.1)
                            implies lex_less(option_score(b, *item, policy, at.0, at.1), option_score(b, *item, policy, gf, go)) by {
                            if gf == here.0 && go == here.1 {
                                assert(!option_before(here.0, here.1, at.0, at.1));
                            }
                        }
                    }
                } else {
                    lemma_lex_order(s_here, s_here, s_here);
                }
            }
            if better {
                best = Some((candidate, score));
                proof {
                    at = here;
                }
            }
        }
        proof {
            assert forall|gf: int, go: int| #[trigger] option_ok(b, *item, gf, go)
                implies enumerated(fi + 1, 0, gf, go) == enumerated(fi as int, shapes@.len() as int, gf, go) by {}
        }
        fi = fi + 1;
    }
    match best {
        Some(found) => {
            proof {
                assert(first_best(b, *item, policy, at.0, at.1));
                assert(can_place(b, *item));
                if policy == PlacementPolicy::BestFit {
                    lemma_best_fit_wastes_least(b, *item, at.0, at.1, found.0);
                }
            }
            Some(found.0)
        },
        None => {
            proof {
                assert forall|gf: int, go: int| !option_ok(b, *item, gf, go) by {
                    if option_ok(b, *item, gf, go) {
                        assert(enumerated(b.free_spaces@.len() as int, 0, gf, go));
                    }
                }
            }
            None
        },
    }
}

proof fn lemma_placements_bounded(b: OpenBox)
    requires
        box_bounded(b),
    ensures
        placements_bounded(b.placements@),
        crate::placement::placements_fit(b.placements@),
{
    assert forall|k: int| 0 <= k < b.placements@.len() implies #[trigger] extent_bounded(b.placements@[k].position, b.placements@[k].size) by {
        assert(inside(b.placements@[k].position, b.placements@[k].size, b.size));
    }
    assert forall|k: int| 0 <= k < b.placements@.len() implies #[trigger] extent_fits(b.placements@[k].position, b.placements@[k].size) by {
        assert(inside(b.placements@[k].position, b.placements@[k].size, b.size));
    }
}
} // verus!
