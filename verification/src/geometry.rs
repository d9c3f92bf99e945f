//! Boxes, positions, orientations and the free spaces left inside a box.

use vstd::prelude::*;

verus! {

/// Width (x), height (y) and depth (z) of a product or a box.
#[derive(Clone, Copy, Debug, PartialEq, Eq, Hash, Structural)]
pub struct Dimensions {
    pub width: u32,
    pub height: u32,
    pub depth: u32,
}

/// A corner position inside a box; the origin is the bottom-left-back corner.
#[derive(Clone, Copy, Debug, PartialEq, Eq, Hash, Structural)]
pub struct Position {
    pub x: u32,
    pub y: u32,
    pub z: u32,
}

/// Which original edge is laid along width, height and depth.
#[derive(Clone, Copy, Debug, PartialEq, Eq, Structural)]
pub enum Orientation {
    Whd,
    Wdh,
    Hwd,
    Hdw,
    Dwh,
    Dhw,
}

/// An empty axis-aligned region of a box.
#[derive(Clone, Copy, Debug, PartialEq, Eq, Structural)]
pub struct FreeSpace {
    pub position: Position,
    pub size: Dimensions,
}

/// The largest edge any product or box can have (the catalogue stores edges as `u16`).
pub const MAX_EDGE: u32 = 65535;

pub open spec fn volume_of(d: Dimensions) -> int {
    d.width * d.height * d.depth
}

pub open spec fn max_edge_of(d: Dimensions) -> int {
    if d.width >= d.height && d.width >= d.depth {
        d.width as int
    } else if d.height >= d.depth {
        d.height as int
    } else {
        d.depth as int
    }
}

pub open spec fn is_empty_dims(d: Dimensions) -> bool {
    d.width == 0 || d.height == 0 || d.depth == 0
}

/// All edges are at most `MAX_EDGE`.
pub open spec fn edges_bounded(d: Dimensions) -> bool {
    d.width <= MAX_EDGE && d.height <= MAX_EDGE && d.depth <= MAX_EDGE
}

/// The region `position + size` lies inside a box of size `bounds`.
pub open spec fn inside(position: Position, size: Dimensions, bounds: Dimensions) -> bool {
    &&& position.x + size.width <= bounds.width
    &&& position.y + size.height <= bounds.height
    &&& position.z + size.depth <= bounds.depth
}

/// Coordinates plus extents stay within `u32`.
pub open spec fn extent_fits(position: Position, size: Dimensions) -> bool {
    &&& position.x + size.width <= u32::MAX
    &&& position.y + size.height <= u32::MAX
    &&& position.z + size.depth <= u32::MAX
}

/// Two half-open intervals share a point.
pub open spec fn intervals_meet(a0: int, a1: int, b0: int, b1: int) -> bool {
    a0 < b1 && b0 < a1
}

/// Two regions share a point of positive volume.
pub open spec fn regions_intersect(p: Position, s: Dimensions, q: Position, t: Dimensions) -> bool {
    &&& intervals_meet(p.x as int, p.x + s.width, q.x as int, q.x + t.width)
    &&& intervals_meet(p.y as int, p.y + s.height, q.y as int, q.y + t.height)
    &&& intervals_meet(p.z as int, p.z + s.depth, q.z as int, q.z + t.depth)
}

/// Region `(q, t)` lies inside region `(p, s)`.
pub open spec fn region_contains(p: Position, s: Dimensions, q: Position, t: Dimensions) -> bool {
    &&& p.x <= q.x && p.y <= q.y && p.z <= q.z
    &&& q.x + t.width <= p.x + s.width
    &&& q.y + t.height <= p.y + s.height
    &&& q.z + t.depth <= p.z + s.depth
}

pub open spec fn space_fits(s: FreeSpace) -> bool {
    extent_fits(s.position, s.size)
}

impl Dimensions {
    /// Product of the three edges.
    pub fn volume(self) -> (v: u64)
        requires
            volume_of(self) <= u64::MAX,
        ensures
            v == volume_of(self),
    {
        let w = self.width as u64;
        let h = self.height as u64;
        let d = self.depth as u64;
        proof {
            assert(w * h <= w * h * d || d == 0) by (nonlinear_arith);
            if d != 0 {
                assert(w * h <= u64::MAX);
            } else {
                assert(w * h <= (u32::MAX as int) * (u32::MAX as int)) by (nonlinear_arith)
                    requires w <= u32::MAX, h <= u32::MAX;
            }
        }
        w * h * d
    }

    /// The longest edge.
    pub fn max_edge(self) -> (m: u32)
        ensures
            m == max_edge_of(self),
    {
        if self.width >= self.height && self.width >= self.depth {
            self.width
        } else if self.height >= self.depth {
            self.height
        } else {
            self.depth
        }
    }

    /// Some edge is zero.
    pub fn is_empty(self) -> (b: bool)
        ensures
            b == is_empty_dims(self),
    {
        self.width == 0 || self.height == 0 || self.depth == 0
    }
}

pub proof fn lemma_bounded_volume(d: Dimensions)
    requires
        edges_bounded(d),
    ensures
        0 <= volume_of(d) <= (MAX_EDGE as int) * (MAX_EDGE as int) * (MAX_EDGE as int),
{
    let m = MAX_EDGE as int;
    assert(0 <= d.width * d.height <= m * m) by (nonlinear_arith)
        requires d.width <= m, d.height <= m, 0 <= d.width, 0 <= d.height;
    assert(0 <= d.width * d.height * d.depth <= m * m * m) by (nonlinear_arith)
        requires 0 <= d.width * d.height <= m * m, d.depth <= m, 0 <= d.depth;
}

pub open spec fn max_x_of(s: FreeSpace) -> int {
    s.position.x + s.size.width
}

pub open spec fn max_y_of(s: FreeSpace) -> int {
    s.position.y + s.size.height
}

pub open spec fn max_z_of(s: FreeSpace) -> int {
    s.position.z + s.size.depth
}

impl FreeSpace {
    pub fn volume(self) -> (v: u64)
        requires
            volume_of(self.size) <= u64::MAX,
        ensures
            v == volume_of(self.size),
    {
        self.size.volume()
    }

    pub fn max_x(self) -> (m: u32)
        requires
            space_fits(self),
        ensures
            m == max_x_of(self),
    {
        self.position.x + self.size.width
    }

    pub fn max_y(self) -> (m: u32)
        requires
            space_fits(self),
        ensures
            m == max_y_of(self),
    {
        self.position.y + self.size.height
    }

    pub fn max_z(self) -> (m: u32)
        requires
            space_fits(self),
        ensures
            m == max_z_of(self),
    {
        self.position.z + self.size.depth
    }

    /// `other` lies inside `self`.
    pub fn contains(self, other: Self) -> (b: bool)
        requires
            space_fits(self),
            space_fits(other),
        ensures
            b == region_contains(self.position, self.size, other.position, other.size),
    {
        self.position.x <= other.position.x && self.position.y <= other.position.y
            && self.position.z <= other.position.z && self.max_x() >= other.max_x()
            && self.max_y() >= other.max_y() && self.max_z() >= other.max_z()
    }

    /// The two spaces share a region of positive volume.
    pub fn intersects(self, other: Self) -> (b: bool)
        requires
            space_fits(self),
            space_fits(other),
        ensures
            b == regions_intersect(self.position, self.size, other.position, other.size),
    {
        self.position.x < other.max_x() && self.max_x() > other.position.x && self.position.y
            < other.max_y() && self.max_y() > other.position.y && self.position.z
            < other.max_z() && self.max_z() > other.position.z
    }

    /// The parts of `self` that lie outside `occupied`: up to six slabs, one on
    /// each side of the occupied region, each spanning the rest of `self`.
    pub fn split_around(self, occupied: Self) -> (parts: Vec<Self>)
        requires
            space_fits(self),
            space_fits(occupied),
        ensures
            parts@ == split_spec(self, occupied),
    {
        if !self.intersects(occupied) {
            return vec![self];
        }
        let x0 = if self.position.x >= occupied.position.x {
            self.position.x
        } else {
            occupied.position.x
        };
        let y0 = if self.position.y >= occupied.position.y {
            self.position.y
        } else {
            occupied.position.y
        };
        let z0 = if self.position.z >= occupied.position.z {
            self.position.z
        } else {
            occupied.position.z
        };
        let x1 = if self.max_x() <= occupied.max_x() {
            self.max_x()
        } else {
            occupied.max_x()
        };
        let y1 = if self.max_y() <= occupied.max_y() {
            self.max_y()
        } else {
            occupied.max_y()
        };
        let z1 = if self.max_z() <= occupied.max_z() {
            self.max_z()
        } else {
            occupied.max_z()
        };
        let mut result: Vec<FreeSpace> = Vec::with_capacity(6);
        push_space(
            &mut result,
            self.position,
            Dimensions {
                width: x0 - self.position.x,
                height: self.size.height,
                depth: self.size.depth,
            },
        );
        push_space(
            &mut result,
            Position { x: x1, y: self.position.y, z: self.position.z },
            Dimensions {
                width: self.max_x() - x1,
                height: self.size.height,
                depth: self.size.depth,
            },
        );
        push_space(
            &mut result,
            self.position,
            Dimensions {
                width: self.size.width,
                height: y0 - self.position.y,
                depth: self.size.depth,
            },
        );
        push_space(
            &mut result,
            Position { x: self.position.x, y: y1, z: self.position.z },
            Dimensions {
                width: self.size.width,
                height: self.max_y() - y1,
                depth: self.size.depth,
            },
        );
        push_space(
            &mut result,
            self.position,
            Dimensions {
                width: self.size.width,
                height: self.size.height,
                depth: z0 - self.position.z,
            },
        );
        push_space(
            &mut result,
            Position { x: self.position.x, y: self.position.y, z: z1 },
            Dimensions {
                width: self.size.width,
                height: self.size.height,
                depth: self.max_z() - z1,
            },
        );
        result
    }
}

pub open spec fn min_int(a: int, b: int) -> int {
    if a <= b {
        a
    } else {
        b
    }
}

pub open spec fn max_int(a: int, b: int) -> int {
    if a >= b {
        a
    } else {
        b
    }
}

pub open spec fn make_space(x: int, y: int, z: int, w: int, h: int, d: int) -> FreeSpace {
    FreeSpace {
        position: Position { x: x as u32, y: y as u32, z: z as u32 },
        size: Dimensions { width: w as u32, height: h as u32, depth: d as u32 },
    }
}

/// Appends the space unless it has an empty edge.
pub open spec fn push_if_nonempty(spaces: Seq<FreeSpace>, s: FreeSpace) -> Seq<FreeSpace> {
    if is_empty_dims(s.size) {
        spaces
    } else {
        spaces.push(s)
    }
}

/// The six slabs of `s` around the intersection with `o`, left, right,
/// below, above, behind and in front, dropping the empty ones.
pub open spec fn split_spec(s: FreeSpace, o: FreeSpace) -> Seq<FreeSpace> {
    if !regions_intersect(s.position, s.size, o.position, o.size) {
        seq![s]
    } else {
        let p = s.position;
        let x0 = max_int(p.x as int, o.position.x as int);
        let y0 = max_int(p.y as int, o.position.y as int);
        let z0 = max_int(p.z as int, o.position.z as int);
        let x1 = min_int(max_x_of(s), max_x_of(o));
        let y1 = min_int(max_y_of(s), max_y_of(o));
        let z1 = min_int(max_z_of(s), max_z_of(o));
        let w = s.size.width as int;
        let h = s.size.height as int;
        let d = s.size.depth as int;
        let a = push_if_nonempty(Seq::empty(), make_space(p.x as int, p.y as int, p.z as int, x0 - p.x, h, d));
        let b = push_if_nonempty(a, make_space(x1, p.y as int, p.z as int, max_x_of(s) - x1, h, d));
        let c = push_if_nonempty(b, make_space(p.x as int, p.y as int, p.z as int, w, y0 - p.y, d));
        let e = push_if_nonempty(c, make_space(p.x as int, y1, p.z as int, w, max_y_of(s) - y1, d));
        let f = push_if_nonempty(e, make_space(p.x as int, p.y as int, p.z as int, w, h, z0 - p.z));
        push_if_nonempty(f, make_space(p.x as int, p.y as int, z1, w, h, max_z_of(s) - z1))
    }
}

/// Every part that `split_spec` produces lies inside the space it was cut from.
pub proof fn lemma_split_parts_inside(s: FreeSpace, o: FreeSpace)
    requires
        space_fits(s),
        space_fits(o),
    ensures
        forall|i: int|
            0 <= i < split_spec(s, o).len() ==> #[trigger] region_contains(
                s.position,
                s.size,
                split_spec(s, o)[i].position,
                split_spec(s, o)[i].size,
            ),
{
}

/// Every part that `split_spec` produces from a non-empty space is
/// non-empty and shares no volume with the occupied region.
pub proof fn lemma_split_parts_clear(s: FreeSpace, o: FreeSpace)
    requires
        space_fits(s),
        space_fits(o),
        !is_empty_dims(s.size),
    ensures
        forall|i: int| 0 <= i < split_spec(s, o).len() ==> !is_empty_dims(#[trigger] split_spec(s, o)[i].size)
            && !regions_intersect(split_spec(s, o)[i].position, split_spec(s, o)[i].size, o.position, o.size),
{
    if !regions_intersect(s.position, s.size, o.position, o.size) {
        assert(split_spec(s, o) =~= seq![s]);
    }
}

/// The integer point `(x, y, z)` lies in the space.
pub open spec fn holds_point(s: FreeSpace, x: int, y: int, z: int) -> bool {
    &&& s.position.x <= x < max_x_of(s)
    &&& s.position.y <= y < max_y_of(s)
    &&& s.position.z <= z < max_z_of(s)
}

/// Some space of the sequence holds the point.
pub open spec fn some_holds(spaces: Seq<FreeSpace>, x: int, y: int, z: int) -> bool {
    exists|i: int| 0 <= i < spaces.len() && #[trigger] holds_point(spaces[i], x, y, z)
}

proof fn lemma_push_holds(spaces: Seq<FreeSpace>, sp: FreeSpace, x: int, y: int, z: int)
    ensures
        some_holds(push_if_nonempty(spaces, sp), x, y, z) == (some_holds(spaces, x, y, z) || holds_point(sp, x, y, z)),
{
    let out = push_if_nonempty(spaces, sp);
    if some_holds(out, x, y, z) {
        let i = choose|i: int| 0 <= i < out.len() && #[trigger] holds_point(out[i], x, y, z);
        if i < spaces.len() {
            assert(out[i] == spaces[i]);
        }
    }
    if some_holds(spaces, x, y, z) {
        let i = choose|i: int| 0 <= i < spaces.len() && #[trigger] holds_point(spaces[i], x, y, z);
        if !is_empty_dims(sp.size) {
            assert(out[i] == spaces[i]);
        }
    }
    if holds_point(sp, x, y, z) {
        assert(!is_empty_dims(sp.size));
        assert(out[spaces.len() as int] == sp);
    }
}

/// Splitting a space around an occupied region keeps exactly its points
/// outside that region: a point of `s` lies in some part if and only if it
/// lies outside `o`.
pub proof fn lemma_split_keeps_free_points(s: FreeSpace, o: FreeSpace, x: int, y: int, z: int)
    requires
        space_fits(s),
        space_fits(o),
        holds_point(s, x, y, z),
    ensures
        some_holds(split_spec(s, o), x, y, z) <==> !holds_point(o, x, y, z),
{
    if !regions_intersect(s.position, s.size, o.position, o.size) {
        assert(holds_point(split_spec(s, o)[0], x, y, z));
    } else {
        let p = s.position;
        let x0 = max_int(p.x as int, o.position.x as int);
        let y0 = max_int(p.y as int, o.position.y as int);
        let z0 = max_int(p.z as int, o.position.z as int);
        let x1 = min_int(max_x_of(s), max_x_of(o));
        let y1 = min_int(max_y_of(s), max_y_of(o));
        let z1 = min_int(max_z_of(s), max_z_of(o));
        let w = s.size.width as int;
        let h = s.size.height as int;
        let d = s.size.depth as int;
        let sa = make_space(p.x as int, p.y as int, p.z as int, x0 - p.x, h, d);
        let sb = make_space(x1, p.y as int, p.z as int, max_x_of(s) - x1, h, d);
        let sc = make_space(p.x as int, p.y as int, p.z as int, w, y0 - p.y, d);
        let se = make_space(p.x as int, y1, p.z as int, w, max_y_of(s) - y1, d);
        let sf = make_space(p.x as int, p.y as int, p.z as int, w, h, z0 - p.z);
        let sg = make_space(p.x as int, p.y as int, z1, w, h, max_z_of(s) - z1);
        let a = push_if_nonempty(Seq::empty(), sa);
        let b = push_if_nonempty(a, sb);
        let c = push_if_nonempty(b, sc);
        let e = push_if_nonempty(c, se);
        let f = push_if_nonempty(e, sf);
        lemma_push_holds(Seq::empty(), sa, x, y, z);
        lemma_push_holds(a, sb, x, y, z);
        lemma_push_holds(b, sc, x, y, z);
        lemma_push_holds(c, se, x, y, z);
        lemma_push_holds(e, sf, x, y, z);
        lemma_push_holds(f, sg, x, y, z);
        assert(!some_holds(Seq::<FreeSpace>::empty(), x, y, z));
    }
}

/// Appends a space unless it has an empty edge.
pub fn push_space(spaces: &mut Vec<FreeSpace>, position: Position, size: Dimensions)
    ensures
        final(spaces)@ == push_if_nonempty(old(spaces)@, FreeSpace { position, size }),
{
    if !size.is_empty() {
        spaces.push(FreeSpace { position, size });
    }
}

/// The label's edge order applied to `d`.
pub open spec fn oriented(o: Orientation, d: Dimensions) -> Dimensions {
    match o {
        Orientation::Whd => Dimensions { width: d.width, height: d.height, depth: d.depth },
        Orientation::Wdh => Dimensions { width: d.width, height: d.depth, depth: d.height },
        Orientation::Hwd => Dimensions { width: d.height, height: d.width, depth: d.depth },
        Orientation::Hdw => Dimensions { width: d.height, height: d.depth, depth: d.width },
        Orientation::Dwh => Dimensions { width: d.depth, height: d.width, depth: d.height },
        Orientation::Dhw => Dimensions { width: d.depth, height: d.height, depth: d.width },
    }
}

/// The fixed order in which orientations are tried.
pub open spec fn orientation_rank(o: Orientation) -> int {
    match o {
        Orientation::Whd => 0,
        Orientation::Wdh => 1,
        Orientation::Hwd => 2,
        Orientation::Hdw => 3,
        Orientation::Dwh => 4,
        Orientation::Dhw => 5,
    }
}

/// The orientation tried in position `k`.
pub open spec fn orientation_at(k: int) -> Orientation {
    if k == 0 {
        Orientation::Whd
    } else if k == 1 {
        Orientation::Wdh
    } else if k == 2 {
        Orientation::Hwd
    } else if k == 3 {
        Orientation::Hdw
    } else if k == 4 {
        Orientation::Dwh
    } else {
        Orientation::Dhw
    }
}

/// The first `k` orientations, keeping only the first that gives each shape.
pub open spec fn distinct_orientations_upto(d: Dimensions, k: nat) -> Seq<(Orientation, Dimensions)>
    decreases k,
{
    if k == 0 {
        Seq::empty()
    } else {
        let prev = distinct_orientations_upto(d, (k - 1) as nat);
        let o = orientation_at(k - 1);
        if has_shape(prev, oriented(o, d)) {
            prev
        } else {
            prev.push((o, oriented(o, d)))
        }
    }
}

/// The distinct shapes of `d`, in the order Whd, Wdh, Hwd, Hdw, Dwh, Dhw,
/// each under the first orientation that gives it.
pub open spec fn distinct_orientations(d: Dimensions) -> Seq<(Orientation, Dimensions)> {
    distinct_orientations_upto(d, 6)
}

pub open spec fn has_shape(r: Seq<(Orientation, Dimensions)>, d: Dimensions) -> bool {
    exists|i: int| 0 <= i < r.len() && r[i].1 == d
}

fn push_orientation(
    result: &mut Vec<(Orientation, Dimensions)>,
    orientation: Orientation,
    dimensions: Dimensions,
)
    ensures
        final(result)@ == (if has_shape(old(result)@, dimensions) {
            old(result)@
        } else {
            old(result)@.push((orientation, dimensions))
        }),
{
    let mut i: usize = 0;
    while i < result.len()
        invariant
            i <= result@.len(),
            result@ == old(result)@,
            forall|k: int| 0 <= k < i ==> result@[k].1 != dimensions,
        decreases result@.len() - i,
    {
        if result[i].1 == dimensions {
            return;
        }
        i = i + 1;
    }
    result.push((orientation, dimensions));
}

/// The distinct shapes of `original`, in the order Whd, Wdh, Hwd, Hdw, Dwh,
/// Dhw, each labelled by the first orientation that produces it.
pub fn orientations(original: Dimensions) -> (result: Vec<(Orientation, Dimensions)>)
    ensures
        result@ == distinct_orientations(original),
{
    let w = original.width;
    let h = original.height;
    let d = original.depth;
    let mut result: Vec<(Orientation, Dimensions)> = Vec::with_capacity(6);
    push_orientation(&mut result, Orientation::Whd, Dimensions { width: w, height: h, depth: d });
    push_orientation(&mut result, Orientation::Wdh, Dimensions { width: w, height: d, depth: h });
    push_orientation(&mut result, Orientation::Hwd, Dimensions { width: h, height: w, depth: d });
    push_orientation(&mut result, Orientation::Hdw, Dimensions { width: h, height: d, depth: w });
    push_orientation(&mut result, Orientation::Dwh, Dimensions { width: d, height: w, depth: h });
    push_orientation(&mut result, Orientation::Dhw, Dimensions { width: d, height: h, depth: w });
    proof {
        reveal_with_fuel(distinct_orientations_upto, 7);
    }
    result
}

/// The three edges in ascending order.
pub open spec fn sorted_edges(d: Dimensions) -> (int, int, int) {
    let a = d.width as int;
    let b = d.height as int;
    let c = d.depth as int;
    let lo = min_int(a, min_int(b, c));
    let hi = max_int(a, max_int(b, c));
    (lo, a + b + c - lo - hi, hi)
}

/// Sorted edge by sorted edge, the item is no larger than the container.
pub open spec fn fits_rotated(item: Dimensions, container: Dimensions) -> bool {
    let (a0, a1, a2) = sorted_edges(item);
    let (b0, b1, b2) = sorted_edges(container);
    a0 <= b0 && a1 <= b1 && a2 <= b2
}

fn sort_three(a: u32, b: u32, c: u32) -> (r: (u32, u32, u32))
    ensures
        r.0 as int == sorted_edges(Dimensions { width: a, height: b, depth: c }).0,
        r.1 as int == sorted_edges(Dimensions { width: a, height: b, depth: c }).1,
        r.2 as int == sorted_edges(Dimensions { width: a, height: b, depth: c }).2,
{
    let (x, y) = if a <= b {
        (a, b)
    } else {
        (b, a)
    };
    let (y, z) = if y <= c {
        (y, c)
    } else {
        (c, y)
    };
    let (x, y) = if x <= y {
        (x, y)
    } else {
        (y, x)
    };
    (x, y, z)
}

/// Whether the item fits into the container when turned some way: its
/// sorted edges are each at most the container's sorted edges.
pub fn fits_with_rotation(item: Dimensions, container: Dimensions) -> (b: bool)
    ensures
        b == fits_rotated(item, container),
{
    let (a0, a1, a2) = sort_three(item.width, item.height, item.depth);
    let (b0, b1, b2) = sort_three(container.width, container.height, container.depth);
    a0 <= b0 && a1 <= b1 && a2 <= b2
}

/// How many copies of `item` fit into `container` as an axis-aligned grid;
/// a weak item is not stacked, so it gets one layer at most.
pub open spec fn grid_capacity_spec(container: Dimensions, item: Dimensions, weak: bool) -> int
    recommends
        !is_empty_dims(item),
{
    let layers: int = if weak {
        if item.height <= container.height {
            1
        } else {
            0
        }
    } else {
        container.height as int / item.height as int
    };
    (container.width as int / item.width as int) * layers * (container.depth as int
        / item.depth as int)
}

pub fn grid_capacity(container: Dimensions, item: Dimensions, weak: bool) -> (c: u64)
    requires
        !is_empty_dims(item),
        edges_bounded(container),
    ensures
        c == grid_capacity_spec(container, item, weak),
        c <= (MAX_EDGE as int) * (MAX_EDGE as int) * (MAX_EDGE as int),
{
    let layers: u64 = if weak {
        if item.height <= container.height {
            1
        } else {
            0
        }
    } else {
        (container.height / item.height) as u64
    };
    let across = (container.width / item.width) as u64;
    let deep = (container.depth / item.depth) as u64;
    proof {
        let m = MAX_EDGE as int;
        assert(container.width as int / item.width as int <= container.width) by (nonlinear_arith)
            requires item.width >= 1;
        assert(container.height as int / item.height as int <= container.height) by (nonlinear_arith)
            requires item.height >= 1;
        assert(container.depth as int / item.depth as int <= container.depth) by (nonlinear_arith)
            requires item.depth >= 1;
        assert(across * layers <= m * m) by (nonlinear_arith)
            requires across <= m, layers <= m, 0 <= across, 0 <= layers;
        assert(across * layers * deep <= m * m * m) by (nonlinear_arith)
            requires across * layers <= m * m, deep <= m, 0 <= across * layers, 0 <= deep;
    }
    across * layers * deep
}

/// Length of the overlap of `[a0, a1)` and `[b0, b1)`, or zero.
pub open spec fn overlap_spec(a0: int, a1: int, b0: int, b1: int) -> int {
    let v = min_int(a1, b1) - max_int(a0, b0);
    if v > 0 {
        v
    } else {
        0
    }
}

pub fn overlap_length(left_start: u32, left_end: u32, right_start: u32, right_end: u32) -> (l: u32)
    ensures
        l == overlap_spec(left_start as int, left_end as int, right_start as int, right_end as int),
{
    let hi = if left_end <= right_end {
        left_end
    } else {
        right_end
    };
    let lo = if left_start >= right_start {
        left_start
    } else {
        right_start
    };
    if hi > lo {
        hi - lo
    } else {
        0
    }
}

} // verus!

verus! {

proof fn lemma_distinct_upto_oriented(d: Dimensions, k: nat)
    ensures
        forall|i: int| 0 <= i < distinct_orientations_upto(d, k).len() ==> #[trigger] distinct_orientations_upto(d, k)[i].1 == oriented(distinct_orientations_upto(d, k)[i].0, d),
    decreases k,
{
    if k > 0 {
        lemma_distinct_upto_oriented(d, (k - 1) as nat);
        let prev = distinct_orientations_upto(d, (k - 1) as nat);
        let o = orientation_at(k - 1);
        let cur = distinct_orientations_upto(d, k);
        assert forall|i: int| 0 <= i < cur.len() implies #[trigger] cur[i].1 == oriented(cur[i].0, d) by {
            if i < prev.len() {
                assert(cur[i] == prev[i]);
            }
        }
    }
}

/// Each entry of the orientation list is the original turned by its label.
pub proof fn lemma_distinct_orientations_oriented(d: Dimensions, i: int)
    requires
        0 <= i < distinct_orientations(d).len(),
    ensures
        distinct_orientations(d)[i].1 == oriented(distinct_orientations(d)[i].0, d),
{
    lemma_distinct_upto_oriented(d, 6);
}

proof fn lemma_distinct_upto_shapes(d: Dimensions, k: nat)
    requires
        k <= 6,
    ensures
        forall|i: int, j: int| 0 <= i < j < distinct_orientations_upto(d, k).len()
            ==> #[trigger] distinct_orientations_upto(d, k)[i].1 != #[trigger] distinct_orientations_upto(d, k)[j].1,
        forall|j: int| 0 <= j < k ==> #[trigger] has_shape(distinct_orientations_upto(d, k), oriented(orientation_at(j), d)),
    decreases k,
{
    if k > 0 {
        lemma_distinct_upto_shapes(d, (k - 1) as nat);
        let prev = distinct_orientations_upto(d, (k - 1) as nat);
        let o = orientation_at(k - 1);
        let cur = distinct_orientations_upto(d, k);
        assert forall|i: int, j: int| 0 <= i < j < cur.len() implies #[trigger] cur[i].1 != #[trigger] cur[j].1 by {
            if j < prev.len() {
                assert(cur[i] == prev[i] && cur[j] == prev[j]);
            } else {
                assert(cur[i] == prev[i]);
                assert(!has_shape(prev, oriented(o, d)));
            }
        }
        assert forall|j: int| 0 <= j < k implies #[trigger] has_shape(cur, oriented(orientation_at(j), d)) by {
            if j < k - 1 {
                assert(has_shape(prev, oriented(orientation_at(j), d)));
                let i = choose|i: int| 0 <= i < prev.len() && prev[i].1 == oriented(orientation_at(j), d);
                assert(cur[i] == prev[i]);
            } else if !has_shape(prev, oriented(o, d)) {
                assert(cur[prev.len() as int].1 == oriented(o, d));
            }
        }
    }
}

/// The orientation list holds every shape the item can be turned to, each
/// exactly once, each under a label that gives it.
pub proof fn lemma_orientations_are_the_distinct_turns(d: Dimensions)
    ensures
        forall|i: int, j: int| 0 <= i < j < distinct_orientations(d).len()
            ==> #[trigger] distinct_orientations(d)[i].1 != #[trigger] distinct_orientations(d)[j].1,
        forall|o: Orientation| #[trigger] has_shape(distinct_orientations(d), oriented(o, d)),
        forall|i: int| 0 <= i < distinct_orientations(d).len()
            ==> #[trigger] distinct_orientations(d)[i].1 == oriented(distinct_orientations(d)[i].0, d),
{
    lemma_distinct_upto_shapes(d, 6);
    lemma_distinct_upto_oriented(d, 6);
    assert forall|o: Orientation| #[trigger] has_shape(distinct_orientations(d), oriented(o, d)) by {
        assert(orientation_at(orientation_rank(o)) == o);
        assert(has_shape(distinct_orientations_upto(d, 6), oriented(orientation_at(orientation_rank(o)), d)));
    }
}

/// The volume computed in 128 bits, where it always fits.
pub fn wide_volume(d: Dimensions) -> (v: u128)
    ensures
        v == volume_of(d),
        v <= (u32::MAX as int) * (u32::MAX as int) * (u32::MAX as int),
{
    let w = d.width as u128;
    let h = d.height as u128;
    let z = d.depth as u128;
    proof {
        let m = u32::MAX as int;
        assert(0 <= w * h <= m * m) by (nonlinear_arith)
            requires w <= m, h <= m, 0 <= w, 0 <= h;
        assert(0 <= w * h * z <= m * m * m) by (nonlinear_arith)
            requires 0 <= w * h <= m * m, z <= m, 0 <= z;
    }
    w * h * z
}

} // verus!
