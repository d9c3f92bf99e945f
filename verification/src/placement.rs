//! Items, placed items and the checks a new placement must pass: no
//! collision, nothing on top of it, and support from below.

use vstd::prelude::*;

use crate::catalog::ProductMarker;
use crate::geometry::{
    extent_fits, is_empty_dims, max_int, min_int, overlap_length, overlap_spec, regions_intersect, volume_of,
    Dimensions, Orientation, MAX_EDGE,
    Position,
};
use crate::area::{
    by_start, count_range, in_intervals, lemma_count_all, lemma_count_bounds, lemma_count_ext,
    lemma_count_none, lemma_count_split, lemma_sum_const, lemma_sum_lt, lemma_sum_split,
    merged_length, sum_range,
};
use crate::sorting::{sort_by, sorted_by, total_preorder};
use crate::text::{lemma_text_order_all, text_before, text_le, text_less};

verus! {

broadcast use vstd::seq_lib::group_to_multiset_ensures;

/// One physical instance of an ordered product.
#[derive(Clone, Debug)]
pub struct Item {
    pub product_instance_id: String,
    pub instance_index: usize,
    pub product_id: String,
    pub name: String,
    pub markers: Vec<ProductMarker>,
    pub size: Dimensions,
    pub weight: u64,
}

/// What an item is, with its strings and markers taken by value.
pub struct ItemView {
    pub product_instance_id: Seq<char>,
    pub instance_index: usize,
    pub product_id: Seq<char>,
    pub name: Seq<char>,
    pub markers: Seq<ProductMarker>,
    pub size: Dimensions,
    pub weight: u64,
}

impl View for Item {
    type V = ItemView;

    open spec fn view(&self) -> ItemView {
        ItemView {
            product_instance_id: self.product_instance_id@,
            instance_index: self.instance_index,
            product_id: self.product_id@,
            name: self.name@,
            markers: self.markers@,
            size: self.size,
            weight: self.weight,
        }
    }
}

pub open spec fn is_weak_item(item: Item) -> bool {
    item.markers@.contains(ProductMarker::Weak)
}

/// Equal multisets stay equal when every element is mapped through `f`.
pub proof fn lemma_map_multiset<A, B>(a: Seq<A>, b: Seq<A>, f: spec_fn(A) -> B)
    requires
        a.to_multiset() == b.to_multiset(),
    ensures
        a.map_values(f).to_multiset() == b.map_values(f).to_multiset(),
    decreases a.len(),
{
    if a.len() == 0 {
        assert(b.to_multiset().len() == 0);
        assert(b.len() == 0);
        assert(a.map_values(f) =~= b.map_values(f));
    } else {
        let x = a[0];
        assert(a.to_multiset().count(x) > 0) by {
            assert(a.contains(x));
        }
        assert(b.contains(x));
        let j = choose|j: int| 0 <= j < b.len() && b[j] == x;
        assert(a.remove(0).to_multiset() == a.to_multiset().remove(x));
        assert(b.remove(j).to_multiset() == b.to_multiset().remove(x));
        lemma_map_multiset(a.remove(0), b.remove(j), f);
        assert(a.map_values(f).remove(0) =~= a.remove(0).map_values(f));
        assert(b.map_values(f).remove(j) =~= b.remove(j).map_values(f));
        assert(a.map_values(f).remove(0).to_multiset() == a.map_values(f).to_multiset().remove(f(x)));
        assert(b.map_values(f).remove(j).to_multiset() == b.map_values(f).to_multiset().remove(f(x)));
        assert(a.map_values(f).to_multiset().count(f(x)) > 0) by {
            assert(a.map_values(f)[0] == f(x));
            assert(a.map_values(f).contains(f(x)));
        }
        assert(b.map_values(f).to_multiset().count(f(x)) > 0) by {
            assert(b.map_values(f)[j] == f(x));
            assert(b.map_values(f).contains(f(x)));
        }
        assert(a.map_values(f).to_multiset() =~= a.map_values(f).to_multiset().remove(f(x)).insert(f(x)));
        assert(b.map_values(f).to_multiset() =~= b.map_values(f).to_multiset().remove(f(x)).insert(f(x)));
    }
}

/// Copies the markers one by one.
pub fn copy_markers(markers: &Vec<ProductMarker>) -> (r: Vec<ProductMarker>)
    ensures
        r@ == markers@,
{
    let mut r: Vec<ProductMarker> = Vec::with_capacity(markers.len());
    let mut i: usize = 0;
    while i < markers.len()
        invariant
            i <= markers@.len(),
            r@ == markers@.take(i as int),
        decreases markers@.len() - i,
    {
        r.push(markers[i]);
        proof {
            assert(markers@.take(i + 1) =~= markers@.take(i as int).push(markers@[i as int]));
        }
        i = i + 1;
    }
    proof {
        assert(markers@.take(markers@.len() as int) =~= markers@);
    }
    r
}

impl Item {
    /// The volume of the item.
    pub fn volume(&self) -> (v: u64)
        requires
            volume_of(self.size) <= u64::MAX,
        ensures
            v == volume_of(self.size),
    {
        self.size.volume()
    }

    /// Whether the item carries the `Weak` marker.
    pub fn is_weak(&self) -> (b: bool)
        ensures
            b == is_weak_item(*self),
    {
        let mut i: usize = 0;
        while i < self.markers.len()
            invariant
                i <= self.markers@.len(),
                forall|k: int| 0 <= k < i ==> self.markers@[k] != ProductMarker::Weak,
            decreases self.markers@.len() - i,
        {
            if self.markers[i] == ProductMarker::Weak {
                proof {
                    assert(self.markers@[i as int] == ProductMarker::Weak);
                }
                return true;
            }
            i = i + 1;
        }
        false
    }

    /// A field-by-field copy.
    pub fn duplicate(&self) -> (r: Item)
        ensures
            r@ == self@,
    {
        let markers = copy_markers(&self.markers);
        proof {
            assert(markers@ =~= self.markers@);
        }
        let r = Item {
            product_instance_id: self.product_instance_id.clone(),
            instance_index: self.instance_index,
            product_id: self.product_id.clone(),
            name: self.name.clone(),
            markers,
            size: self.size,
            weight: self.weight,
        };
        r
    }
}

/// An item at its place in a box.
#[derive(Clone, Debug)]
pub struct PlacedItem {
    pub item: Item,
    pub position: Position,
    pub size: Dimensions,
    pub orientation: Orientation,
    pub supported_by: Vec<String>,
    pub sequence: usize,
}

/// The item occupies the region `(position, size)`.
pub open spec fn occupies(p: PlacedItem, position: Position, size: Dimensions) -> bool {
    regions_intersect(position, size, p.position, p.size)
}

/// The region `(position, size)` overlaps some placed item.
pub open spec fn collides_spec(position: Position, size: Dimensions, placed: Seq<PlacedItem>) -> bool {
    exists|k: int| 0 <= k < placed.len() && #[trigger] occupies(placed[k], position, size)
}

/// The placed item stands above the region and their footprints overlap.
pub open spec fn stands_above(p: PlacedItem, position: Position, size: Dimensions) -> bool {
    &&& position.y + size.height <= p.position.y
    &&& overlap_spec(position.x as int, position.x + size.width, p.position.x as int, p.position.x + p.size.width) > 0
    &&& overlap_spec(position.z as int, position.z + size.depth, p.position.z as int, p.position.z + p.size.depth) > 0
}

/// Some placed item stands above the region.
pub open spec fn below_spec(position: Position, size: Dimensions, placed: Seq<PlacedItem>) -> bool {
    exists|k: int| 0 <= k < placed.len() && #[trigger] stands_above(placed[k], position, size)
}

/// Coordinates plus extents of every placed item stay within `u32`.
pub open spec fn placements_fit(placed: Seq<PlacedItem>) -> bool {
    forall|k: int| 0 <= k < placed.len() ==> #[trigger] extent_fits(placed[k].position, placed[k].size)
}

/// Whether the region `(position, size)` overlaps any placed item.
pub fn collides(position: Position, size: Dimensions, placements: &[PlacedItem]) -> (b: bool)
    requires
        extent_fits(position, size),
        placements_fit(placements@),
    ensures
        b == collides_spec(position, size, placements@),
{
    let mut i: usize = 0;
    while i < placements.len()
        invariant
            i <= placements@.len(),
            extent_fits(position, size),
            placements_fit(placements@),
            forall|k: int| 0 <= k < i ==> !#[trigger] occupies(placements@[k], position, size),
        decreases placements@.len() - i,
    {
        let placed = &placements[i];
        proof {
            assert(extent_fits(placements@[i as int].position, placements@[i as int].size));
        }
        if position.x < placed.position.x + placed.size.width && position.x + size.width
            > placed.position.x && position.y < placed.position.y + placed.size.height
            && position.y + size.height > placed.position.y && position.z < placed.position.z
            + placed.size.depth && position.z + size.depth > placed.position.z {
            proof {
                assert(occupies(placements@[i as int], position, size));
            }
            return true;
        }
        i = i + 1;
    }
    false
}

/// Whether some placed item stands above the region with an overlapping footprint.
pub fn is_below_existing_product(
    position: Position,
    size: Dimensions,
    placements: &[PlacedItem],
) -> (b: bool)
    requires
        extent_fits(position, size),
        placements_fit(placements@),
    ensures
        b == below_spec(position, size, placements@),
{
    let mut i: usize = 0;
    while i < placements.len()
        invariant
            i <= placements@.len(),
            extent_fits(position, size),
            placements_fit(placements@),
            forall|k: int| 0 <= k < i ==> !#[trigger] stands_above(placements@[k], position, size),
        decreases placements@.len() - i,
    {
        let placed = &placements[i];
        proof {
            assert(extent_fits(placements@[i as int].position, placements@[i as int].size));
        }
        if position.y + size.height <= placed.position.y && overlap_length(
            position.x,
            position.x + size.width,
            placed.position.x,
            placed.position.x + placed.size.width,
        ) > 0 && overlap_length(
            position.z,
            position.z + size.depth,
            placed.position.z,
            placed.position.z + placed.size.depth,
        ) > 0 {
            proof {
                assert(stands_above(placements@[i as int], position, size));
            }
            return true;
        }
        i = i + 1;
    }
    false
}

} // verus!

verus! {

/// The part of a supporting item's top face that lies under a new item.
#[derive(Clone, Debug)]
pub struct SupportRectangle {
    pub x0: u32,
    pub x1: u32,
    pub z0: u32,
    pub z1: u32,
    pub product_instance_id: String,
}

/// A weak item lies below the region with overlapping footprint, so nothing
/// may rest above it.
pub open spec fn rests_on_weak(p: PlacedItem, position: Position, size: Dimensions) -> bool {
    &&& p.position.y + p.size.height <= position.y
    &&& is_weak_item(p.item)
    &&& overlap_spec(position.x as int, position.x + size.width, p.position.x as int, p.position.x + p.size.width) > 0
    &&& overlap_spec(position.z as int, position.z + size.depth, p.position.z as int, p.position.z + p.size.depth) > 0
}

pub open spec fn weak_beneath(position: Position, size: Dimensions, placed: Seq<PlacedItem>) -> bool {
    exists|k: int| 0 <= k < placed.len() && #[trigger] rests_on_weak(placed[k], position, size)
}

/// The top face of `p` is level with the bottom of the region and the
/// footprints overlap.
pub open spec fn touches_below(p: PlacedItem, position: Position, size: Dimensions) -> bool {
    &&& p.position.y + p.size.height == position.y
    &&& overlap_spec(position.x as int, position.x + size.width, p.position.x as int, p.position.x + p.size.width) > 0
    &&& overlap_spec(position.z as int, position.z + size.depth, p.position.z as int, p.position.z + p.size.depth) > 0
}

/// The contact rectangle of `p` under the region, as `(x0, x1, z0, z1)`.
pub open spec fn contact_rect(p: PlacedItem, position: Position, size: Dimensions) -> (int, int, int, int) {
    (
        max_int(position.x as int, p.position.x as int),
        min_int(position.x + size.width, p.position.x + p.size.width),
        max_int(position.z as int, p.position.z as int),
        min_int(position.z + size.depth, p.position.z + p.size.depth),
    )
}

/// The contact rectangles of the items touching the region from below, in placement order.
pub open spec fn support_rects(position: Position, size: Dimensions, placed: Seq<PlacedItem>) -> Seq<(int, int, int, int)>
    decreases placed.len(),
{
    if placed.len() == 0 {
        Seq::empty()
    } else {
        let prev = support_rects(position, size, placed.drop_last());
        if touches_below(placed.last(), position, size) {
            prev.push(contact_rect(placed.last(), position, size))
        } else {
            prev
        }
    }
}

/// The ids of the items touching the region from below.
pub open spec fn support_ids(position: Position, size: Dimensions, placed: Seq<PlacedItem>) -> Set<Seq<char>> {
    Set::new(|id: Seq<char>| exists|k: int| 0 <= k < placed.len() && #[trigger] touches_below(placed[k], position, size) && placed[k].item.product_instance_id@ == id)
}

pub open spec fn rect_coords(r: SupportRectangle) -> (int, int, int, int) {
    (r.x0 as int, r.x1 as int, r.z0 as int, r.z1 as int)
}

pub open spec fn string_views(v: Seq<String>) -> Seq<Seq<char>> {
    v.map_values(|s: String| s@)
}

/// Each id comes strictly after the previous one.
pub open spec fn strictly_ascending(ids: Seq<Seq<char>>) -> bool {
    forall|i: int, j: int| 0 <= i < j < ids.len() ==> #[trigger] text_before(ids[i], ids[j])
}

/// The rectangle covers the cell `(x, z)`.
pub open spec fn covers(r: (int, int, int, int), c: (int, int)) -> bool {
    r.0 <= c.0 < r.1 && r.2 <= c.1 < r.3
}

/// Rectangles with integer corners inside `[0, MAX_EDGE]` and positive extent.
pub open spec fn rects_bounded(rects: Seq<(int, int, int, int)>) -> bool {
    forall|i: int| 0 <= i < rects.len() ==> {
        let r = #[trigger] rects[i];
        0 <= r.0 < r.1 <= MAX_EDGE && 0 <= r.2 < r.3 <= MAX_EDGE
    }
}

fn u32_less(a: &u32, b: &u32) -> (r: bool)
    ensures
        r == (*a < *b),
{
    *a < *b
}

fn pair_less(a: &(u32, u32), b: &(u32, u32)) -> (r: bool)
    ensures
        r == (a.0 < b.0 || (a.0 == b.0 && a.1 < b.1)),
{
    a.0 < b.0 || (a.0 == b.0 && a.1 < b.1)
}

fn dedup_sorted_u32(v: Vec<u32>) -> (out: Vec<u32>)
    requires
        sorted_by(v@, |a: u32, b: u32| a <= b),
    ensures
        forall|i: int, j: int| 0 <= i < j < out@.len() ==> out@[i] < out@[j],
        forall|x: u32| out@.contains(x) <==> v@.contains(x),
{
    let mut out: Vec<u32> = Vec::with_capacity(v.len());
    let mut i: usize = 0;
    while i < v.len()
        invariant
            i <= v@.len(),
            sorted_by(v@, |a: u32, b: u32| a <= b),
            forall|a: int, b: int| 0 <= a < b < out@.len() ==> out@[a] < out@[b],
            forall|x: u32| out@.contains(x) <==> v@.take(i as int).contains(x),
            i > 0 ==> out@.len() > 0 && out@.last() == v@[i - 1],
            i == 0 ==> out@.len() == 0,
        decreases v@.len() - i,
    {
        let x = v[i];
        let ghost prev = out@;
        if out.len() == 0 || out[out.len() - 1] != x {
            proof {
                if i > 0 {
                    let f = |a: u32, b: u32| a <= b;
                    assert(f(v@[i - 1], v@[i as int]));
                }
            }
            out.push(x);
        }
        proof {
            let t = v@.take(i + 1);
            assert(t =~= v@.take(i as int).push(x));
            assert(out@ == prev || out@ == prev.push(x));
            assert(out@.last() == x);
            assert forall|y: u32| out@.contains(y) <==> t.contains(y) by {
                if out@.contains(y) {
                    let k = choose|k: int| 0 <= k < out@.len() && out@[k] == y;
                    if k < prev.len() {
                        assert(prev[k] == y);
                        assert(prev.contains(y));
                        assert(v@.take(i as int).contains(y));
                        let j = choose|j: int| 0 <= j < i && v@.take(i as int)[j] == y;
                        assert(t[j] == y);
                    } else {
                        assert(y == x);
                        assert(t[i as int] == x);
                    }
                }
                if t.contains(y) {
                    let j = choose|j: int| 0 <= j < t.len() && t[j] == y;
                    if j < i {
                        assert(v@.take(i as int)[j] == y);
                        assert(v@.take(i as int).contains(y));
                        assert(prev.contains(y));
                        let k = choose|k: int| 0 <= k < prev.len() && prev[k] == y;
                        assert(out@[k] == y);
                    } else {
                        assert(y == x);
                        assert(out@[out@.len() - 1] == x);
                    }
                }
            }
        }
        i = i + 1;
    }
    proof {
        assert(v@.take(v@.len() as int) =~= v@);
    }
    out
}

/// Some rectangle covers the cell `(x, z)`.
pub open spec fn covered_at(rects: Seq<(int, int, int, int)>, x: int, z: int) -> bool {
    exists|i: int| 0 <= i < rects.len() && #[trigger] covers(rects[i], (x, z))
}

/// The number of covered cells in column `x`.
pub open spec fn column_cells(rects: Seq<(int, int, int, int)>, x: int) -> int {
    count_range(|z: int| covered_at(rects, x, z), 0, MAX_EDGE as int)
}

/// The number of integer cells `(x, z)` of `[0, MAX_EDGE)²` that some
/// rectangle covers: the area of their union.
pub open spec fn union_area(rects: Seq<(int, int, int, int)>) -> int {
    sum_range(|x: int| column_cells(rects, x), 0, MAX_EDGE as int)
}

/// The rectangle spans the whole strip `[x0, x1)` along x.
pub open spec fn spans(r: (int, int, int, int), x0: int, x1: int) -> bool {
    r.0 <= x0 && x1 <= r.1
}

/// The z-intervals of the rectangles that span the strip `[x0, x1)`.
fn spanning_intervals(rectangles: &[SupportRectangle], x0: u32, x1: u32) -> (iv: Vec<(u32, u32)>)
    requires
        rects_bounded(rectangles@.map_values(|r: SupportRectangle| rect_coords(r))),
    ensures
        forall|j: int| 0 <= j < iv@.len() ==> #[trigger] iv@[j].0 <= iv@[j].1 <= MAX_EDGE,
        forall|z: int| in_intervals(iv@, iv@.len() as int, z) <==> exists|i: int| 0 <= i < rectangles@.len()
            && spans(#[trigger] rect_coords(rectangles@[i]), x0 as int, x1 as int)
            && rectangles@[i].z0 <= z < rectangles@[i].z1,
{
    let ghost coords = rectangles@.map_values(|r: SupportRectangle| rect_coords(r));
    let mut iv: Vec<(u32, u32)> = Vec::new();
    let mut r: usize = 0;
    while r < rectangles.len()
        invariant
            r <= rectangles@.len(),
            coords == rectangles@.map_values(|r: SupportRectangle| rect_coords(r)),
            rects_bounded(coords),
            forall|j: int| 0 <= j < iv@.len() ==> #[trigger] iv@[j].0 <= iv@[j].1 <= MAX_EDGE,
            forall|z: int| in_intervals(iv@, iv@.len() as int, z) <==> exists|i: int| 0 <= i < r
                && spans(#[trigger] rect_coords(rectangles@[i]), x0 as int, x1 as int)
                && rectangles@[i].z0 <= z < rectangles@[i].z1,
        decreases rectangles@.len() - r,
    {
        proof {
            assert(coords[r as int] == rect_coords(rectangles@[r as int]));
        }
        let ghost old_iv = iv@;
        let spanning = rectangles[r].x0 <= x0 && rectangles[r].x1 >= x1;
        if spanning {
            iv.push((rectangles[r].z0, rectangles[r].z1));
        }
        proof {
            assert forall|z: int| in_intervals(iv@, iv@.len() as int, z) <==> exists|i: int| 0 <= i < r + 1
                && spans(#[trigger] rect_coords(rectangles@[i]), x0 as int, x1 as int)
                && rectangles@[i].z0 <= z < rectangles@[i].z1 by {
                if spanning {
                    assert(iv@.len() == old_iv.len() + 1);
                    assert(forall|j: int| 0 <= j < old_iv.len() ==> iv@[j] == old_iv[j]);
                    if in_intervals(iv@, iv@.len() as int, z) {
                        let j = choose|j: int| 0 <= j < iv@.len() && #[trigger] iv@[j].0 <= z && z < iv@[j].1;
                        if j < old_iv.len() {
                            assert(old_iv[j].0 <= z && z < old_iv[j].1);
                            assert(in_intervals(old_iv, old_iv.len() as int, z));
                        } else {
                            assert(spans(rect_coords(rectangles@[r as int]), x0 as int, x1 as int));
                        }
                    }
                    if exists|i: int| 0 <= i < r + 1 && spans(#[trigger] rect_coords(rectangles@[i]), x0 as int, x1 as int)
                        && rectangles@[i].z0 <= z < rectangles@[i].z1 {
                        let i = choose|i: int| 0 <= i < r + 1 && spans(#[trigger] rect_coords(rectangles@[i]), x0 as int, x1 as int)
                            && rectangles@[i].z0 <= z < rectangles@[i].z1;
                        if i < r {
                            assert(in_intervals(old_iv, old_iv.len() as int, z));
                            let j = choose|j: int| 0 <= j < old_iv.len() && #[trigger] old_iv[j].0 <= z && z < old_iv[j].1;
                            assert(iv@[j].0 <= z && z < iv@[j].1);
                        } else {
                            let last = old_iv.len() as int;
                            assert(iv@[last].0 <= z && z < iv@[last].1);
                        }
                    }
                } else {
                    assert(iv@ == old_iv);
                    if exists|i: int| 0 <= i < r + 1 && spans(#[trigger] rect_coords(rectangles@[i]), x0 as int, x1 as int)
                        && rectangles@[i].z0 <= z < rectangles@[i].z1 {
                        let i = choose|i: int| 0 <= i < r + 1 && spans(#[trigger] rect_coords(rectangles@[i]), x0 as int, x1 as int)
                            && rectangles@[i].z0 <= z < rectangles@[i].z1;
                        assert(i < r);
                    }
                }
            }
        }
        r = r + 1;
    }
    iv
}

/// Columns where no rectangle lies have no covered cell.
proof fn lemma_empty_columns(rects: Seq<(int, int, int, int)>, lo: int, hi: int)
    requires
        forall|i: int| 0 <= i < rects.len() ==> #[trigger] rects[i].1 <= lo || rects[i].0 >= hi,
    ensures
        sum_range(|x: int| column_cells(rects, x), lo, hi) == 0,
{
    let col = |x: int| column_cells(rects, x);
    if lo <= hi {
        assert forall|x: int| lo <= x < hi implies #[trigger] col(x) == 0 by {
            let p = |z: int| covered_at(rects, x, z);
            assert forall|z: int| 0 <= z < MAX_EDGE implies !#[trigger] p(z) by {
                if covered_at(rects, x, z) {
                    let i = choose|i: int| 0 <= i < rects.len() && #[trigger] covers(rects[i], (x, z));
                    assert(rects[i].0 <= x && x < rects[i].1);
                }
            }
            lemma_count_none(p, 0, MAX_EDGE as int);
        }
        lemma_sum_const(col, lo, hi, 0);
    }
}

/// Every cell of the region's footprint is covered by the top of an item
/// touching it from below.
pub open spec fn footprint_covered(position: Position, size: Dimensions, placed: Seq<PlacedItem>) -> bool {
    forall|x: int, z: int| position.x <= x < position.x + size.width && position.z <= z < position.z + size.depth
        ==> #[trigger] covered_at(support_rects(position, size, placed), x, z)
}

proof fn lemma_support_rects_in_footprint(position: Position, size: Dimensions, placed: Seq<PlacedItem>)
    ensures
        forall|i: int| 0 <= i < support_rects(position, size, placed).len() ==> {
            let r = #[trigger] support_rects(position, size, placed)[i];
            position.x <= r.0 && r.1 <= position.x + size.width && position.z <= r.2 && r.3 <= position.z + size.depth
        },
    decreases placed.len(),
{
    if placed.len() > 0 {
        lemma_support_rects_in_footprint(position, size, placed.drop_last());
        let prev = support_rects(position, size, placed.drop_last());
        let all = support_rects(position, size, placed);
        assert forall|i: int| 0 <= i < all.len() implies {
            let r = #[trigger] all[i];
            position.x <= r.0 && r.1 <= position.x + size.width && position.z <= r.2 && r.3 <= position.z + size.depth
        } by {
            if i < prev.len() {
                assert(all[i] == prev[i]);
            }
        }
    }
}

/// The items below hold the region up exactly when their tops cover its
/// whole footprint: the area of the union of the contact rectangles reaches
/// the footprint's area if and only if every footprint cell is covered.
pub proof fn lemma_support_area_means_full_cover(position: Position, size: Dimensions, placed: Seq<PlacedItem>)
    requires
        extent_bounded(position, size),
    ensures
        union_area(support_rects(position, size, placed)) >= size.width * size.depth
            <==> footprint_covered(position, size, placed),
{
    let rects = support_rects(position, size, placed);
    let m = MAX_EDGE as int;
    let px = position.x as int;
    let pz = position.z as int;
    let w = size.width as int;
    let d = size.depth as int;
    let col = |x: int| column_cells(rects, x);
    lemma_support_rects_in_footprint(position, size, placed);
    // Each column holds at most `d` covered cells, all within the footprint's depth.
    assert forall|x: int| 0 <= x < m implies #[trigger] col(x) == count_range(|z: int| covered_at(rects, x, z), pz, pz + d) by {
        let p = |z: int| covered_at(rects, x, z);
        assert forall|z: int| 0 <= z < pz implies !#[trigger] p(z) by {
            if p(z) {
                let i = choose|i: int| 0 <= i < rects.len() && #[trigger] covers(rects[i], (x, z));
                assert(pz <= rects[i].2);
            }
        }
        assert forall|z: int| pz + d <= z < m implies !#[trigger] p(z) by {
            if p(z) {
                let i = choose|i: int| 0 <= i < rects.len() && #[trigger] covers(rects[i], (x, z));
                assert(rects[i].3 <= pz + d);
            }
        }
        lemma_count_split(p, 0, pz, m);
        lemma_count_split(p, pz, pz + d, m);
        lemma_count_none(p, 0, pz);
        lemma_count_none(p, pz + d, m);
    }
    assert forall|x: int| (0 <= x < px || px + w <= x < m) implies #[trigger] col(x) == 0 by {
        let p = |z: int| covered_at(rects, x, z);
        assert forall|z: int| pz <= z < pz + d implies !#[trigger] p(z) by {
            if p(z) {
                let i = choose|i: int| 0 <= i < rects.len() && #[trigger] covers(rects[i], (x, z));
                assert(px <= rects[i].0 && rects[i].1 <= px + w);
            }
        }
        lemma_count_none(p, pz, pz + d);
    }
    assert forall|x: int| px <= x < px + w implies #[trigger] col(x) <= d by {
        lemma_count_bounds(|z: int| covered_at(rects, x, z), pz, pz + d);
    }
    lemma_sum_split(col, 0, px, m);
    lemma_sum_split(col, px, px + w, m);
    lemma_sum_const(col, 0, px, 0);
    lemma_sum_const(col, px + w, m, 0);
    if footprint_covered(position, size, placed) {
        assert forall|x: int| px <= x < px + w implies #[trigger] col(x) == d by {
            let p = |z: int| covered_at(rects, x, z);
            assert forall|z: int| pz <= z < pz + d implies #[trigger] p(z) by {
                assert(covered_at(rects, x, z));
            }
            lemma_count_all(p, pz, pz + d);
        }
        lemma_sum_const(col, px, px + w, d);
    } else {
        let (x0, z0) = choose|x: int, z: int| !(px <= x < px + w && pz <= z < pz + d
            ==> #[trigger] covered_at(rects, x, z));
        let p = |z: int| covered_at(rects, x0, z);
        lemma_count_split(p, pz, z0, pz + d);
        lemma_count_split(p, z0, z0 + 1, pz + d);
        lemma_count_bounds(p, pz, z0);
        lemma_count_bounds(p, z0 + 1, pz + d);
        assert(count_range(p, z0, z0 + 1) == 0) by {
            assert(count_range(p, z0, z0) == 0);
        }
        assert(col(x0) < d);
        lemma_sum_lt(col, px, px + w, d, x0);
    }
}

/// The area covered by the union of the rectangles, swept column by column.
pub fn rectangle_union_area(rectangles: &[SupportRectangle]) -> (area: u64)
    requires
        rects_bounded(rectangles@.map_values(|r: SupportRectangle| rect_coords(r))),
    ensures
        area == union_area(rectangles@.map_values(|r: SupportRectangle| rect_coords(r))),
        area <= (MAX_EDGE as int) * (MAX_EDGE as int),
{
    let ghost coords = rectangles@.map_values(|r: SupportRectangle| rect_coords(r));
    let ghost m = MAX_EDGE as int;
    let ghost col = |x: int| column_cells(coords, x);
    let mut raw: Vec<u32> = Vec::new();
    let mut i: usize = 0;
    while i < rectangles.len()
        invariant
            i <= rectangles@.len(),
            coords == rectangles@.map_values(|r: SupportRectangle| rect_coords(r)),
            rects_bounded(coords),
            raw@.len() == 2 * i,
            forall|k: int| 0 <= k < raw@.len() ==> raw@[k] <= MAX_EDGE,
            forall|k: int| 0 <= k < i ==> raw@.contains(#[trigger] rectangles@[k].x0) && raw@.contains(rectangles@[k].x1),
        decreases rectangles@.len() - i,
    {
        proof {
            assert(coords[i as int] == rect_coords(rectangles@[i as int]));
        }
        let ghost before = raw@;
        raw.push(rectangles[i].x0);
        raw.push(rectangles[i].x1);
        proof {
            assert forall|k: int| 0 <= k < i + 1 implies raw@.contains(#[trigger] rectangles@[k].x0) && raw@.contains(rectangles@[k].x1) by {
                if k < i {
                    let a = choose|a: int| 0 <= a < before.len() && before[a] == rectangles@[k].x0;
                    let b = choose|b: int| 0 <= b < before.len() && before[b] == rectangles@[k].x1;
                    assert(raw@[a] == before[a]);
                    assert(raw@[b] == before[b]);
                } else {
                    assert(raw@[2 * k] == rectangles@[k].x0);
                    assert(raw@[2 * k + 1] == rectangles@[k].x1);
                }
            }
        }
        i = i + 1;
    }
    let ghost raw_view = raw@;
    let sorted = sort_by(
        raw,
        u32_less,
        Ghost(|a: u32, b: u32| a <= b),
    );
    let xs = dedup_sorted_u32(sorted);
    proof {
        assert forall|v: u32| xs@.contains(v) <==> raw_view.contains(v) by {
            if sorted@.contains(v) {
                assert(sorted@.to_multiset().count(v) > 0);
                assert(raw_view.to_multiset().count(v) > 0);
            }
            if raw_view.contains(v) {
                assert(raw_view.to_multiset().count(v) > 0);
                assert(sorted@.to_multiset().count(v) > 0);
            }
        }
        assert forall|k: int| 0 <= k < xs@.len() implies xs@[k] <= MAX_EDGE by {
            assert(xs@.contains(xs@[k]));
            assert(raw_view.contains(xs@[k]));
            let a = choose|a: int| 0 <= a < raw_view.len() && raw_view[a] == xs@[k];
        }
    }
    // Every rectangle's x-edges are among the breakpoints.
    let ghost in_xs = |v: int| exists|t: int| 0 <= t < xs@.len() && xs@[t] == v;
    proof {
        assert forall|k: int| 0 <= k < coords.len() implies #[trigger] in_xs(coords[k].0) && in_xs(coords[k].1) by {
            assert(coords[k] == rect_coords(rectangles@[k]));
            assert(raw_view.contains(rectangles@[k].x0));
            assert(raw_view.contains(rectangles@[k].x1));
            assert(xs@.contains(rectangles@[k].x0));
            assert(xs@.contains(rectangles@[k].x1));
        }
    }
    if xs.len() == 0 {
        proof {
            assert(coords.len() == 0) by {
                if coords.len() > 0 {
                    assert(in_xs(coords[0].0));
                }
            }
            lemma_empty_columns(coords, 0, m);
        }
        return 0;
    }
    proof {
        assert forall|k: int| 0 <= k < coords.len() implies #[trigger] coords[k].1 <= 0 || coords[k].0 >= xs@[0] by {
            assert(in_xs(coords[k].0));
            let t = choose|t: int| 0 <= t < xs@.len() && xs@[t] == coords[k].0;
            if t > 0 {
                assert(xs@[0] < xs@[t]);
            }
        }
        lemma_empty_columns(coords, 0, xs@[0] as int);
    }
    let mut area: u64 = 0;
    let mut w: usize = 0;
    while w < xs.len() - 1
        invariant
            coords == rectangles@.map_values(|r: SupportRectangle| rect_coords(r)),
            rects_bounded(coords),
            m == MAX_EDGE,
            col == (|x: int| column_cells(coords, x)),
            xs@.len() > 0,
            w < xs@.len(),
            forall|a: int, b: int| 0 <= a < b < xs@.len() ==> xs@[a] < xs@[b],
            forall|k: int| 0 <= k < xs@.len() ==> xs@[k] <= MAX_EDGE,
            forall|k: int| 0 <= k < coords.len() ==> #[trigger] in_xs(coords[k].0) && in_xs(coords[k].1),
            in_xs == (|v: int| exists|t: int| 0 <= t < xs@.len() && xs@[t] == v),
            area == sum_range(col, 0, xs@[w as int] as int),
            area <= xs@[w as int] * m,
        decreases xs@.len() - w,
    {
        let x0 = xs[w];
        let x1 = xs[w + 1];
        let unsorted = spanning_intervals(rectangles, x0, x1);
        let ghost unsorted_view = unsorted@;
        let intervals = sort_by(
            unsorted,
            pair_less,
            Ghost(|a: (u32, u32), b: (u32, u32)| by_start(a, b)),
        );
        proof {
            assert forall|k: int| 0 <= k < intervals@.len() implies #[trigger] intervals@[k].0 <= intervals@[k].1 <= MAX_EDGE by {
                assert(intervals@.contains(intervals@[k]));
                assert(intervals@.to_multiset().count(intervals@[k]) > 0);
                assert(unsorted_view.to_multiset().count(intervals@[k]) > 0);
                assert(unsorted_view.contains(intervals@[k]));
            }
        }
        let covered_z = merged_length(&intervals);
        proof {
            // In the strip, a cell is covered exactly when its z lies in a spanning interval.
            assert forall|x: int| x0 <= x < x1 implies #[trigger] col(x) == covered_z by {
                let p = |z: int| covered_at(coords, x, z);
                let q = |z: int| in_intervals(intervals@, intervals@.len() as int, z);
                assert forall|z: int| 0 <= z < MAX_EDGE implies #[trigger] p(z) == q(z) by {
                    let in_unsorted = in_intervals(unsorted_view, unsorted_view.len() as int, z);
                    if q(z) {
                        let j = choose|j: int| 0 <= j < intervals@.len() && #[trigger] intervals@[j].0 <= z && z < intervals@[j].1;
                        assert(intervals@.contains(intervals@[j]));
                        assert(intervals@.to_multiset().count(intervals@[j]) > 0);
                        assert(unsorted_view.contains(intervals@[j]));
                        let u = choose|u: int| 0 <= u < unsorted_view.len() && unsorted_view[u] == intervals@[j];
                        assert(unsorted_view[u].0 <= z && z < unsorted_view[u].1);
                        assert(in_unsorted);
                    }
                    if in_unsorted {
                        let u = choose|u: int| 0 <= u < unsorted_view.len() && #[trigger] unsorted_view[u].0 <= z && z < unsorted_view[u].1;
                        assert(unsorted_view.contains(unsorted_view[u]));
                        assert(unsorted_view.to_multiset().count(unsorted_view[u]) > 0);
                        assert(intervals@.contains(unsorted_view[u]));
                        let j = choose|j: int| 0 <= j < intervals@.len() && intervals@[j] == unsorted_view[u];
                        assert(intervals@[j].0 <= z && z < intervals@[j].1);
                    }
                    if p(z) {
                        let k = choose|k: int| 0 <= k < coords.len() && #[trigger] covers(coords[k], (x, z));
                        assert(coords[k] == rect_coords(rectangles@[k]));
                        assert(in_xs(coords[k].0) && in_xs(coords[k].1));
                        let t0 = choose|t: int| 0 <= t < xs@.len() && xs@[t] == coords[k].0;
                        let t1 = choose|t: int| 0 <= t < xs@.len() && xs@[t] == coords[k].1;
                        if t0 > w {
                            assert(xs@[w + 1] <= xs@[t0]) by {
                                if t0 > w + 1 {
                                    assert(xs@[w + 1] < xs@[t0]);
                                }
                            }
                        }
                        if t1 <= w {
                            assert(xs@[t1] <= xs@[w as int]) by {
                                if t1 < w {
                                    assert(xs@[t1] < xs@[w as int]);
                                }
                            }
                        }
                        assert(spans(rect_coords(rectangles@[k]), x0 as int, x1 as int));
                    }
                    if in_unsorted {
                        let k = choose|k: int| 0 <= k < rectangles@.len()
                            && spans(#[trigger] rect_coords(rectangles@[k]), x0 as int, x1 as int)
                            && rectangles@[k].z0 <= z < rectangles@[k].z1;
                        assert(coords[k] == rect_coords(rectangles@[k]));
                        assert(covers(coords[k], (x, z)));
                    }
                }
                lemma_count_ext(p, q, 0, MAX_EDGE as int);
            }
            lemma_sum_const(col, x0 as int, x1 as int, covered_z as int);
            lemma_sum_split(col, 0, x0 as int, x1 as int);
            assert((x1 - x0) * covered_z <= (x1 - x0) * m) by (nonlinear_arith)
                requires covered_z <= m, x0 < x1;
            assert(x0 * m + (x1 - x0) * m == x1 * m) by (nonlinear_arith);
            assert(x1 * m <= m * m) by (nonlinear_arith)
                requires x1 <= m, m >= 0;
        }
        area = area + (x1 - x0) as u64 * covered_z;
        w = w + 1;
    }
    proof {
        let last = xs@[w as int] as int;
        assert forall|k: int| 0 <= k < coords.len() implies #[trigger] coords[k].1 <= last || coords[k].0 >= m by {
            assert(in_xs(coords[k].1));
            let t = choose|t: int| 0 <= t < xs@.len() && xs@[t] == coords[k].1;
            if t < w {
                assert(xs@[t] < xs@[w as int]);
            }
        }
        lemma_empty_columns(coords, last, m);
        lemma_sum_split(col, 0, last, m);
        assert(last * m <= m * m) by (nonlinear_arith)
            requires last <= m, m >= 0;
    }
    area
}

} // verus!

verus! {

/// The most items one packing run handles, so that every sum of volumes,
/// weights and areas the heuristic forms stays within `u64`.
pub const ITEM_LIMIT: usize = 65535;

/// Corner coordinates plus extents stay within `MAX_EDGE`.
pub open spec fn extent_bounded(position: Position, size: Dimensions) -> bool {
    &&& position.x + size.width <= MAX_EDGE
    &&& position.y + size.height <= MAX_EDGE
    &&& position.z + size.depth <= MAX_EDGE
}

pub open spec fn placements_bounded(placed: Seq<PlacedItem>) -> bool {
    forall|k: int| 0 <= k < placed.len() ==> #[trigger] extent_bounded(placed[k].position, placed[k].size)
}

fn string_less(a: &String, b: &String) -> (r: bool)
    ensures
        r == text_before(a@, b@),
{
    text_less(a.as_str(), b.as_str())
}

pub open spec fn string_le(a: String, b: String) -> bool {
    text_le(a@, b@)
}

proof fn lemma_string_le_total_preorder()
    ensures
        total_preorder(|a: String, b: String| string_le(a, b)),
{
    lemma_text_order_all();
    let leq = |a: String, b: String| string_le(a, b);
    assert forall|a: String, b: String, c: String| #[trigger] leq(a, b) && #[trigger] leq(b, c) implies leq(a, c) by {
        if text_before(c@, a@) {
            if a@ == b@ {
            } else if text_before(a@, b@) {
                assert(text_before(c@, b@));
            } else {
            }
        }
    }
}

/// Sorts the strings and drops repeats: the result is strictly ascending and
/// holds the same strings.
pub fn sort_dedup_strings(v: Vec<String>) -> (out: Vec<String>)
    ensures
        strictly_ascending(string_views(out@)),
        string_views(out@).to_set() == string_views(v@).to_set(),
{
    proof {
        lemma_string_le_total_preorder();
        lemma_text_order_all();
    }
    let ghost original = v@;
    let sorted = sort_by(v, string_less, Ghost(|a: String, b: String| string_le(a, b)));
    proof {
        lemma_map_multiset(sorted@, original, |s: String| s@);
    }
    let ghost sv = string_views(sorted@);
    let mut out: Vec<String> = Vec::new();
    let mut i: usize = 0;
    while i < sorted.len()
        invariant
            i <= sorted@.len(),
            sv == string_views(sorted@),
            sorted_by(sorted@, |a: String, b: String| string_le(a, b)),
            strictly_ascending(string_views(out@)),
            string_views(out@).to_set() == sv.take(i as int).to_set(),
            i > 0 ==> out@.len() > 0 && out@.last()@ == sorted@[i - 1]@,
            i == 0 ==> out@.len() == 0,
            forall|a: Seq<char>| !#[trigger] text_before(a, a),
            forall|a: Seq<char>, b: Seq<char>| a == b || #[trigger] text_before(a, b) || text_before(b, a),
            forall|a: Seq<char>, b: Seq<char>, c: Seq<char>|
                #[trigger] text_before(a, b) && #[trigger] text_before(b, c) ==> text_before(a, c),
        decreases sorted@.len() - i,
    {
        let ghost prev = out@;
        if out.len() == 0 || out[out.len() - 1] != sorted[i] {
            let s = sorted[i].clone();
            proof {
                if i > 0 {
                    let leq = |a: String, b: String| string_le(a, b);
                    assert(leq(sorted@[i - 1], sorted@[i as int]));
                    assert(text_before(sorted@[i - 1]@, sorted@[i as int]@));
                    let pv = string_views(prev);
                    let nv = string_views(prev.push(s));
                    assert(nv =~= pv.push(s@));
                    assert(pv[prev.len() - 1] == sorted@[i - 1]@);
                    assert forall|a: int, b: int| 0 <= a < b < nv.len() implies #[trigger] text_before(
                        nv[a],
                        nv[b],
                    ) by {
                        if b == prev.len() {
                            if a < prev.len() - 1 {
                                assert(text_before(pv[a], pv[prev.len() - 1]));
                            }
                        } else {
                            assert(text_before(pv[a], pv[b]));
                        }
                    }
                } else {
                    assert(string_views(prev.push(s)).len() == 1);
                }
            }
            out.push(s);
        }
        proof {
            let t = sv.take(i + 1);
            assert(t =~= sv.take(i as int).push(sorted@[i as int]@));
            assert(string_views(out@) =~= string_views(prev) || string_views(out@) =~= string_views(prev).push(sorted@[i as int]@));
            let pv = string_views(prev);
            let ov = string_views(out@);
            assert forall|x: Seq<char>| ov.to_set().contains(x) <==> t.to_set().contains(x) by {
                assert(pv.to_set() == sv.take(i as int).to_set());
                if ov =~= pv.push(sorted@[i as int]@) {
                    if ov.contains(x) {
                        let k = choose|k: int| 0 <= k < ov.len() && ov[k] == x;
                        if k < pv.len() {
                            assert(pv[k] == x);
                            assert(pv.to_set().contains(x));
                            assert(sv.take(i as int).contains(x));
                            let j = choose|j: int| 0 <= j < i && sv.take(i as int)[j] == x;
                            assert(t[j] == x);
                        } else {
                            assert(t[i as int] == x);
                        }
                    }
                    if t.contains(x) {
                        let j = choose|j: int| 0 <= j < t.len() && t[j] == x;
                        if j < i {
                            assert(sv.take(i as int)[j] == x);
                            assert(sv.take(i as int).to_set().contains(x));
                            assert(pv.contains(x));
                            let k = choose|k: int| 0 <= k < pv.len() && pv[k] == x;
                            assert(ov[k] == x);
                        } else {
                            assert(ov[ov.len() - 1] == x);
                        }
                    }
                } else {
                    assert(ov =~= pv);
                    assert(pv[prev.len() - 1] == sorted@[i as int]@);
                    if t.contains(x) {
                        let j = choose|j: int| 0 <= j < t.len() && t[j] == x;
                        if j < i {
                            assert(sv.take(i as int)[j] == x);
                            assert(sv.take(i as int).to_set().contains(x));
                        } else {
                            assert(pv.contains(x));
                        }
                    }
                    if ov.contains(x) {
                        assert(pv.to_set().contains(x));
                        assert(sv.take(i as int).to_set().contains(x));
                        assert(sv.take(i as int).contains(x));
                        let j = choose|j: int| 0 <= j < i && sv.take(i as int)[j] == x;
                        assert(t[j] == x);
                    }
                }
            }
            assert(ov.to_set() =~= t.to_set());
        }
        i = i + 1;
    }
    proof {
        assert(sv.take(sorted@.len() as int) =~= sv);
        assert(sv.to_multiset() == string_views(original).to_multiset());
        assert forall|x: Seq<char>| sv.to_set().contains(x) <==> string_views(original).to_set().contains(x) by {
            assert(sv.contains(x) <==> sv.to_multiset().count(x) > 0);
            assert(string_views(original).contains(x) <==> string_views(original).to_multiset().count(x) > 0);
        }
        assert(sv.to_set() =~= string_views(original).to_set());
    }
    out
}

} // verus!

verus! {

pub open spec fn floor_ids() -> Seq<Seq<char>> {
    seq!["box-floor"@]
}

proof fn lemma_support_rects_step(position: Position, size: Dimensions, placed: Seq<PlacedItem>, i: int)
    requires
        0 <= i < placed.len(),
    ensures
        support_rects(position, size, placed.take(i + 1)) == (if touches_below(placed[i], position, size) {
            support_rects(position, size, placed.take(i)).push(contact_rect(placed[i], position, size))
        } else {
            support_rects(position, size, placed.take(i))
        }),
{
    assert(placed.take(i + 1).drop_last() =~= placed.take(i));
}

/// What rests under the region `(position, size)`: on the floor, the floor;
/// otherwise `None` when a weak item lies anywhere beneath it or the items
/// touching it from below do not cover its whole footprint, and else the ids
/// of those items, sorted and without repeats.
pub fn support_for(position: Position, size: Dimensions, placements: &[PlacedItem]) -> (r: Option<Vec<String>>)
    requires
        extent_bounded(position, size),
        placements_bounded(placements@),
    ensures
        position.y == 0 ==> r.is_some() && string_views(r.unwrap()@) == floor_ids(),
        position.y != 0 && weak_beneath(position, size, placements@) ==> r.is_none(),
        position.y != 0 ==> (r.is_some() <==> !weak_beneath(position, size, placements@)
            && union_area(support_rects(position, size, placements@)) >= size.width * size.depth),
        position.y != 0 && r.is_some() ==> strictly_ascending(string_views(r.unwrap()@)),
        position.y != 0 && r.is_some() ==> string_views(r.unwrap()@).to_set() == support_ids(position, size, placements@),
{
    if position.y == 0 {
        let floor = "box-floor".to_owned();
        let v = vec![floor];
        proof {
            assert(string_views(v@) =~= floor_ids());
        }
        return Some(v);
    }
    let mut i: usize = 0;
    while i < placements.len()
        invariant
            i <= placements@.len(),
            position.y != 0,
            extent_bounded(position, size),
            placements_bounded(placements@),
            forall|k: int| 0 <= k < i ==> !#[trigger] rests_on_weak(placements@[k], position, size),
        decreases placements@.len() - i,
    {
        let placed = &placements[i];
        proof {
            assert(extent_bounded(placements@[i as int].position, placements@[i as int].size));
        }
        let placed_top = placed.position.y + placed.size.height;
        if placed_top <= position.y && placed.item.is_weak() && overlap_length(
            position.x,
            position.x + size.width,
            placed.position.x,
            placed.position.x + placed.size.width,
        ) > 0 && overlap_length(
            position.z,
            position.z + size.depth,
            placed.position.z,
            placed.position.z + placed.size.depth,
        ) > 0 {
            proof {
                assert(rests_on_weak(placements@[i as int], position, size));
            }
            return None;
        }
        i = i + 1;
    }
    let mut supports: Vec<SupportRectangle> = Vec::new();
    let mut ids: Vec<String> = Vec::new();
    let mut i: usize = 0;
    while i < placements.len()
        invariant
            i <= placements@.len(),
            position.y != 0,
            !weak_beneath(position, size, placements@),
            extent_bounded(position, size),
            placements_bounded(placements@),
            supports@.map_values(|r: SupportRectangle| rect_coords(r)) == support_rects(position, size, placements@.take(i as int)),
            forall|id: Seq<char>| string_views(ids@).contains(id) <==> support_ids(position, size, placements@.take(i as int)).contains(id),
            rects_bounded(supports@.map_values(|r: SupportRectangle| rect_coords(r))),
        decreases placements@.len() - i,
    {
        let placed = &placements[i];
        proof {
            assert(extent_bounded(placements@[i as int].position, placements@[i as int].size));
            lemma_support_rects_step(position, size, placements@, i as int);
        }
        let ghost old_supports = supports@;
        let ghost old_ids = ids@;
        let mut touching = false;
        if placed.position.y + placed.size.height == position.y {
            let x0 = if position.x >= placed.position.x { position.x } else { placed.position.x };
            let x1 = if position.x + size.width <= placed.position.x + placed.size.width {
                position.x + size.width
            } else {
                placed.position.x + placed.size.width
            };
            let z0 = if position.z >= placed.position.z { position.z } else { placed.position.z };
            let z1 = if position.z + size.depth <= placed.position.z + placed.size.depth {
                position.z + size.depth
            } else {
                placed.position.z + placed.size.depth
            };
            if x0 < x1 && z0 < z1 {
                supports.push(SupportRectangle {
                    x0,
                    x1,
                    z0,
                    z1,
                    product_instance_id: placed.item.product_instance_id.clone(),
                });
                ids.push(placed.item.product_instance_id.clone());
                touching = true;
            }
        }
        proof {
            let p = placements@[i as int];
            assert(touching == touches_below(p, position, size));
            let f = |r: SupportRectangle| rect_coords(r);
            if touching {
                assert(supports@.map_values(f) =~= old_supports.map_values(f).push(contact_rect(p, position, size)));
                assert(string_views(ids@) =~= string_views(old_ids).push(p.item.product_instance_id@));
            } else {
                assert(supports@.map_values(f) =~= old_supports.map_values(f));
            }
            let pre = placements@.take(i as int);
            let post = placements@.take(i + 1);
            assert forall|id: Seq<char>| string_views(ids@).contains(id) <==> support_ids(position, size, post).contains(id) by {
                if string_views(ids@).contains(id) {
                    let k = choose|k: int| 0 <= k < string_views(ids@).len() && string_views(ids@)[k] == id;
                    if k < old_ids.len() {
                        assert(string_views(old_ids)[k] == id);
                        assert(string_views(old_ids).contains(id));
                        assert(support_ids(position, size, pre).contains(id));
                        let j = choose|j: int| 0 <= j < pre.len() && #[trigger] touches_below(pre[j], position, size) && pre[j].item.product_instance_id@ == id;
                        assert(post[j] == pre[j]);
                    } else {
                        assert(post[i as int] == p);
                        assert(touches_below(post[i as int], position, size));
                    }
                }
                if support_ids(position, size, post).contains(id) {
                    let j = choose|j: int| 0 <= j < post.len() && #[trigger] touches_below(post[j], position, size) && post[j].item.product_instance_id@ == id;
                    if j < i {
                        assert(pre[j] == post[j]);
                        assert(support_ids(position, size, pre).contains(id));
                        assert(string_views(old_ids).contains(id));
                        let k = choose|k: int| 0 <= k < string_views(old_ids).len() && string_views(old_ids)[k] == id;
                        assert(string_views(ids@)[k] == id);
                    } else {
                        assert(string_views(ids@)[string_views(ids@).len() - 1] == id);
                    }
                }
            }
        }
        i = i + 1;
    }
    proof {
        assert(placements@.take(placements@.len() as int) =~= placements@);
    }
    proof {
        let m = MAX_EDGE as int;
        assert(size.width * size.depth <= m * m) by (nonlinear_arith)
            requires size.width <= m, size.depth <= m, size.width >= 0, size.depth >= 0;
    }
    let required_area = size.width as u64 * size.depth as u64;
    if rectangle_union_area(&supports) < required_area {
        return None;
    }
    let supported_by = sort_dedup_strings(ids);
    proof {
        assert forall|id: Seq<char>| string_views(supported_by@).to_set().contains(id) <==> support_ids(position, size, placements@).contains(id) by {
        }
        assert(string_views(supported_by@).to_set() =~= support_ids(position, size, placements@));
    }
    Some(supported_by)
}

} // verus!
