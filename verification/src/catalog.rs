//! The catalogue records that the service stores: products, box stock,
//! orders and sessions.

use vstd::prelude::*;

verus! {

/// Handling markers of a product.
#[derive(Clone, Copy, Debug, PartialEq, Eq, Structural)]
pub enum ProductMarker {
    Weak,
    Water,
    Fire,
}

/// Outer dimensions of a product.
#[derive(Clone, Copy, Debug, PartialEq, Eq, Structural)]
pub struct ProductBounds {
    width: u16,
    height: u16,
    depth: u16,
}

pub open spec fn bounds_volume(w: u16, h: u16, d: u16) -> int {
    w * h * d
}

proof fn lemma_u16_volume(w: u16, h: u16, d: u16)
    ensures
        0 <= w * h * d <= 65535 * 65535 * 65535,
        (w as u64) * (h as u64) <= 65535 * 65535,
{
    assert(0 <= w * h <= 65535 * 65535) by (nonlinear_arith)
        requires w <= 65535, h <= 65535, 0 <= w, 0 <= h;
    assert(0 <= w * h * d <= 65535 * 65535 * 65535) by (nonlinear_arith)
        requires 0 <= w * h <= 65535 * 65535, d <= 65535, 0 <= d;
}

fn u16_volume(w: u16, h: u16, d: u16) -> (v: u64)
    ensures
        v == bounds_volume(w, h, d),
{
    proof {
        lemma_u16_volume(w, h, d);
    }
    (w as u64) * (h as u64) * (d as u64)
}

impl ProductBounds {
    pub fn new(width: u16, height: u16, depth: u16) -> (b: Self)
        ensures
            b.spec_width() == width && b.spec_height() == height && b.spec_depth() == depth,
    {
        ProductBounds { width, height, depth }
    }

    pub closed spec fn spec_width(&self) -> u16 {
        self.width
    }

    pub closed spec fn spec_height(&self) -> u16 {
        self.height
    }

    pub closed spec fn spec_depth(&self) -> u16 {
        self.depth
    }

    pub fn get_volume(&self) -> (v: u64)
        ensures
            v == bounds_volume(self.spec_width(), self.spec_height(), self.spec_depth()),
    {
        u16_volume(self.width, self.height, self.depth)
    }

    pub fn get_width(&self) -> (w: u16)
        ensures
            w == self.spec_width(),
    {
        self.width
    }

    pub fn get_height(&self) -> (h: u16)
        ensures
            h == self.spec_height(),
    {
        self.height
    }

    pub fn get_depth(&self) -> (d: u16)
        ensures
            d == self.spec_depth(),
    {
        self.depth
    }
}

/// A product of the catalogue. Its `id` is the record id in text form, such
/// as `products:⟨uuid⟩`.
#[derive(Clone, Debug)]
pub struct Product {
    id: String,
    name: String,
    marker: Option<Vec<ProductMarker>>,
    bounds: ProductBounds,
    weight: u16,
    count: u32,
    volume: u64,
}

impl Product {
    pub closed spec fn spec_id(&self) -> Seq<char> {
        self.id@
    }

    pub closed spec fn spec_name(&self) -> Seq<char> {
        self.name@
    }

    pub closed spec fn spec_marker(&self) -> Option<Seq<ProductMarker>> {
        match self.marker {
            Some(m) => Some(m@),
            None => None,
        }
    }

    pub closed spec fn spec_bounds(&self) -> ProductBounds {
        self.bounds
    }

    pub closed spec fn spec_weight(&self) -> u16 {
        self.weight
    }

    pub closed spec fn spec_count(&self) -> u32 {
        self.count
    }

    pub closed spec fn spec_volume(&self) -> u64 {
        self.volume
    }

    /// A product record; its volume is computed from its bounds.
    pub fn from_data(
        id: String,
        name: String,
        marker: Option<Vec<ProductMarker>>,
        bounds: ProductBounds,
        weight: u16,
        count: u32,
    ) -> (p: Self)
        ensures
            p.spec_id() == id@,
            p.spec_name() == name@,
            p.spec_marker() == (match marker {
                Some(m) => Some(m@),
                None => None::<Seq<ProductMarker>>,
            }),
            p.spec_bounds() == bounds,
            p.spec_weight() == weight,
            p.spec_count() == count,
            p.spec_volume() == bounds_volume(
                bounds.spec_width(),
                bounds.spec_height(),
                bounds.spec_depth(),
            ),
    {
        let volume = bounds.get_volume();
        Product { id, name, marker, bounds, weight, count, volume }
    }

    pub fn get_id(&self) -> (r: &String)
        ensures
            r@ == self.spec_id(),
    {
        &self.id
    }

    pub fn get_name(&self) -> (r: &str)
        ensures
            r@ == self.spec_name(),
    {
        self.name.as_str()
    }

    pub fn get_marker(&self) -> (r: Option<&[ProductMarker]>)
        ensures
            match self.spec_marker() {
                Some(m) => r.is_some() && r.unwrap()@ == m,
                None => r.is_none(),
            },
    {
        match &self.marker {
            Some(m) => Some(m.as_slice()),
            None => None,
        }
    }

    pub fn get_bounds(&self) -> (r: &ProductBounds)
        ensures
            *r == self.spec_bounds(),
    {
        &self.bounds
    }

    pub fn get_weight(&self) -> (w: u16)
        ensures
            w == self.spec_weight(),
    {
        self.weight
    }

    pub fn get_count(&self) -> (c: u32)
        ensures
            c == self.spec_count(),
    {
        self.count
    }

    pub fn get_volume(&self) -> (v: u64)
        ensures
            v == self.spec_volume(),
    {
        self.volume
    }
}

/// Inner dimensions of a box.
#[derive(Clone, Copy, Debug, PartialEq, Eq, Structural)]
pub struct BoxBounds {
    width: u16,
    height: u16,
    depth: u16,
}

impl BoxBounds {
    pub fn new(width: u16, height: u16, depth: u16) -> (b: Self)
        ensures
            b.spec_width() == width && b.spec_height() == height && b.spec_depth() == depth,
    {
        BoxBounds { width, height, depth }
    }

    pub closed spec fn spec_width(&self) -> u16 {
        self.width
    }

    pub closed spec fn spec_height(&self) -> u16 {
        self.height
    }

    pub closed spec fn spec_depth(&self) -> u16 {
        self.depth
    }

    pub fn get_volume(&self) -> (v: u64)
        ensures
            v == bounds_volume(self.spec_width(), self.spec_height(), self.spec_depth()),
    {
        u16_volume(self.width, self.height, self.depth)
    }

    pub fn get_width(&self) -> (w: u16)
        ensures
            w == self.spec_width(),
    {
        self.width
    }

    pub fn get_height(&self) -> (h: u16)
        ensures
            h == self.spec_height(),
    {
        self.height
    }

    pub fn get_depth(&self) -> (d: u16)
        ensures
            d == self.spec_depth(),
    {
        self.depth
    }
}

/// A stock entry of boxes: `count` boxes of the same bounds and weight limit.
#[derive(Clone, Debug)]
pub struct Boxes {
    id: String,
    bounds: BoxBounds,
    max_weight: u16,
    count: u8,
    volume: u64,
}

impl Boxes {
    pub closed spec fn spec_id(&self) -> Seq<char> {
        self.id@
    }

    pub closed spec fn spec_bounds(&self) -> BoxBounds {
        self.bounds
    }

    pub closed spec fn spec_max_weight(&self) -> u16 {
        self.max_weight
    }

    pub closed spec fn spec_count(&self) -> u8 {
        self.count
    }

    pub closed spec fn spec_volume(&self) -> u64 {
        self.volume
    }

    /// A stock entry; its volume is computed from its bounds.
    pub fn from_data(id: String, bounds: BoxBounds, max_weight: u16, count: u8) -> (b: Self)
        ensures
            b.spec_id() == id@,
            b.spec_bounds() == bounds,
            b.spec_max_weight() == max_weight,
            b.spec_count() == count,
            b.spec_volume() == bounds_volume(
                bounds.spec_width(),
                bounds.spec_height(),
                bounds.spec_depth(),
            ),
    {
        let volume = bounds.get_volume();
        Boxes { id, bounds, max_weight, count, volume }
    }

    /// The same entry with `new_count` more boxes, or `None` when the count
    /// would pass 255.
    pub fn increase_count(&self, new_count: u8) -> (r: Option<Self>)
        ensures
            self.spec_count() + new_count <= 255 ==> r.is_some() && r.unwrap().spec_count()
                == self.spec_count() + new_count && r.unwrap().spec_id() == self.spec_id()
                && r.unwrap().spec_bounds() == self.spec_bounds() && r.unwrap().spec_max_weight()
                == self.spec_max_weight() && r.unwrap().spec_volume() == self.spec_volume(),
            self.spec_count() + new_count > 255 ==> r.is_none(),
    {
        match self.count.checked_add(new_count) {
            Some(count) => Some(
                Boxes {
                    id: self.id.clone(),
                    bounds: self.bounds,
                    max_weight: self.max_weight,
                    count,
                    volume: self.volume,
                },
            ),
            None => None,
        }
    }

    pub fn get_id(&self) -> (r: &String)
        ensures
            r@ == self.spec_id(),
    {
        &self.id
    }

    pub fn get_bounds(&self) -> (r: &BoxBounds)
        ensures
            *r == self.spec_bounds(),
    {
        &self.bounds
    }

    pub fn get_max_weight(&self) -> (w: u16)
        ensures
            w == self.spec_max_weight(),
    {
        self.max_weight
    }

    pub fn get_count(&self) -> (c: u8)
        ensures
            c == self.spec_count(),
    {
        self.count
    }

    pub fn get_volume(&self) -> (v: u64)
        ensures
            v == self.spec_volume(),
    {
        self.volume
    }
}

/// Whether an order has been packed.
#[derive(Clone, Copy, Debug, PartialEq, Eq, Structural)]
pub enum OrderStatus {
    Packed,
    NotPacked,
}

/// An order: product ids with quantities, the boxes chosen for it and its status.
#[derive(Clone, Debug)]
pub struct Order {
    id: String,
    products: Vec<(String, usize)>,
    package_box: Vec<(String, usize)>,
    status: OrderStatus,
}

impl Order {
    pub closed spec fn spec_id(&self) -> Seq<char> {
        self.id@
    }

    pub closed spec fn spec_products(&self) -> Seq<(String, usize)> {
        self.products@
    }

    pub closed spec fn spec_package_box(&self) -> Seq<(String, usize)> {
        self.package_box@
    }

    pub closed spec fn spec_status(&self) -> OrderStatus {
        self.status
    }

    pub fn from_data(
        id: String,
        products: Vec<(String, usize)>,
        package_box: Vec<(String, usize)>,
        status: OrderStatus,
    ) -> (o: Self)
        ensures
            o.spec_id() == id@,
            o.spec_products() == products@,
            o.spec_package_box() == package_box@,
            o.spec_status() == status,
    {
        Order { id, products, package_box, status }
    }

    pub fn get_id(&self) -> (r: &String)
        ensures
            r@ == self.spec_id(),
    {
        &self.id
    }

    pub fn get_products(&self) -> (r: &[(String, usize)])
        ensures
            r@ == self.spec_products(),
    {
        self.products.as_slice()
    }

    pub fn get_package_box(&self) -> (r: &[(String, usize)])
        ensures
            r@ == self.spec_package_box(),
    {
        self.package_box.as_slice()
    }

    pub fn get_status(&self) -> (r: &OrderStatus)
        ensures
            *r == self.spec_status(),
    {
        &self.status
    }
}

/// A stored login session: the user and the two tokens issued to them.
#[derive(Clone, Debug)]
pub struct JwtSession {
    user_email: String,
    access_token: String,
    refresh_token: String,
}

impl JwtSession {
    pub closed spec fn spec_user_email(&self) -> Seq<char> {
        self.user_email@
    }

    pub closed spec fn spec_access_token(&self) -> Seq<char> {
        self.access_token@
    }

    pub closed spec fn spec_refresh_token(&self) -> Seq<char> {
        self.refresh_token@
    }

    pub fn new(user_email: &str, access_token: &str, refresh_token: &str) -> (s: Self)
        ensures
            s.spec_user_email() == user_email@,
            s.spec_access_token() == access_token@,
            s.spec_refresh_token() == refresh_token@,
    {
        JwtSession {
            user_email: user_email.to_owned(),
            access_token: access_token.to_owned(),
            refresh_token: refresh_token.to_owned(),
        }
    }

    pub fn get_user_email(&self) -> (r: &str)
        ensures
            r@ == self.spec_user_email(),
    {
        self.user_email.as_str()
    }

    pub fn get_access_token(&self) -> (r: &str)
        ensures
            r@ == self.spec_access_token(),
    {
        self.access_token.as_str()
    }

    pub fn get_refresh_token(&self) -> (r: &str)
        ensures
            r@ == self.spec_refresh_token(),
    {
        self.refresh_token.as_str()
    }
}

/// What is wrong with an order line asking for `count` of a product: fewer
/// are in stock than asked for. A line for a product that is not in the
/// catalogue is accepted as it stands.
pub open spec fn order_line_message(product: Option<Product>, count: usize) -> Option<Seq<char>> {
    match product {
        None => None,
        Some(p) => if (p.spec_count() as int) < count {
            Some("not enough "@ + p.spec_name() + " on stock"@)
        } else {
            None
        },
    }
}

/// The complaint about an order line, if any.
pub fn order_line_problem(product: Option<&Product>, count: usize) -> (r: Option<String>)
    ensures
        match (r, order_line_message(match product {
            Some(p) => Some(*p),
            None => None,
        }, count)) {
            (None, None) => true,
            (Some(m), Some(expected)) => m@ == expected,
            _ => false,
        },
{
    match product {
        None => None,
        Some(p) => {
            if (p.get_count() as usize) < count {
                let mut message = "not enough ".to_owned();
                message.append(p.get_name());
                message.append(" on stock");
                Some(message)
            } else {
                None
            }
        },
    }
}

} // verus!
