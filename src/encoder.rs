use vstd::prelude::*;

use vstd::arithmetic::div_mod::{
    lemma_fundamental_div_mod, lemma_fundamental_div_mod_converse, lemma_mod_bound,
};

use crate::bounding_box::{box_of, is_proper, lemma_box_of_proper, positions_of, BoundingBox};
use crate::color::Color;
use crate::point::{Point, Position};
use crate::raster::{raster_bytes, raster_height, raster_width, Raster};

verus! {

/// Most points one encoder takes, `16383^2`: the quad image of side
/// `2 * ceil(sqrt n)` then holds at most `16 * 16383^2` bytes, which a 32-bit
/// `usize` can index.
pub const MAX_ENCODED_POINTS: usize = 268_402_689;

/// Largest value of a 32-bit split coordinate, `2^32 - 1`.
pub const QUAD_SCALE: u64 = 4_294_967_295;

/// `floor(d / s * m)` for the fraction `d / s` of the box, saturated to
/// `0 ..= m` as a float-to-integer cast does (an empty extent gives 0, or `m`
/// for a point past it).
pub open spec fn unit_fraction(d: int, s: int, m: int) -> int {
    if s <= 0 {
        if d > 0 {
            m
        } else {
            0
        }
    } else if d <= 0 {
        0
    } else if d * m / s >= m {
        m
    } else {
        d * m / s
    }
}

/// The side of the square image for `n` points: `ceil(sqrt(n))`.
pub open spec fn is_side(s: int, n: int) -> bool {
    &&& s >= 0
    &&& s * s >= n
    &&& (s == 0 || (s - 1) * (s - 1) < n)
}

/// The 8-bit position pixel of a point given as offsets from the box's
/// minimum.
pub open spec fn position_pixel(p: Point, size: Position) -> Seq<u8> {
    seq![
        unit_fraction(p.position.x as int, size.x as int, 255) as u8,
        unit_fraction(p.position.y as int, size.y as int, 255) as u8,
        unit_fraction(p.position.z as int, size.z as int, 255) as u8,
        255u8,
    ]
}

/// The color pixel of a point; white where it has no color.
pub open spec fn color_pixel(p: Point) -> Seq<u8> {
    match p.color {
        Some(c) => seq![c.red, c.green, c.blue, 255u8],
        None => seq![255u8, 255u8, 255u8, 255u8],
    }
}

/// Octet `k` (0 lowest) of `u`.
pub open spec fn octet(u: int, k: int) -> int {
    if k == 0 {
        u % 256
    } else if k == 1 {
        (u / 256) % 256
    } else if k == 2 {
        (u / 65536) % 256
    } else {
        (u / 16777216) % 256
    }
}

/// Pixel `k` of the four that hold a point in the quad image: octet `k` of
/// each coordinate scaled to `0 ..= 2^32 - 1`, with the alpha channel holding
/// red, green, blue and 255 for `k` = 0 to 3 when `alpha_color`, else 255.
pub open spec fn quad_pixel(p: Point, size: Position, k: int, alpha_color: bool) -> Seq<u8> {
    let c = match p.color {
        Some(c) => c,
        None => Color { red: 255, green: 255, blue: 255 },
    };
    let alpha: u8 = if !alpha_color || k == 3 {
        255u8
    } else if k == 0 {
        c.red
    } else if k == 1 {
        c.green
    } else {
        c.blue
    };
    seq![
        octet(unit_fraction(p.position.x as int, size.x as int, QUAD_SCALE as int), k) as u8,
        octet(unit_fraction(p.position.y as int, size.y as int, QUAD_SCALE as int), k) as u8,
        octet(unit_fraction(p.position.z as int, size.z as int, QUAD_SCALE as int), k) as u8,
        alpha,
    ]
}

/// Pixels laid out four bytes each, pixel `i` at bytes `4 i .. 4 i + 4`, and
/// zero bytes after the last pixel up to `len`.
pub open spec fn packed(pix: Seq<Seq<u8>>, len: nat) -> Seq<u8> {
    Seq::new(len, |b: int| if b / 4 < pix.len() { pix[b / 4][b % 4] } else { 0u8 })
}

/// Where pixel `k` of point `i` stands in the quad image of side `2 s`:
/// column `i % s + s * (k % 2)`, row `i / s + s * (k / 2)`.
pub open spec fn quad_index(i: int, s: int, k: int) -> int {
    (i / s + s * (k / 2)) * (2 * s) + (i % s + s * (k % 2))
}

/// Point `i` of `n` goes to column `i % s` and row `i / s` of an image of
/// side `s = ceil(sqrt n)`: inside the image, and no two points share a
/// pixel.
pub proof fn lemma_pixels_distinct(n: int, s: int, i: int, j: int)
    requires
        is_side(s, n),
        0 <= i < n,
        0 <= j < n,
        i != j,
    ensures
        0 <= i / s < s,
        0 <= i % s < s,
        (i % s, i / s) != (j % s, j / s),
{
    lemma_fundamental_div_mod(i, s);
    lemma_fundamental_div_mod(j, s);
    lemma_mod_bound(i, s);
    lemma_row_in_image(n, s, i);
}

proof fn lemma_row_in_image(n: int, s: int, i: int)
    requires
        is_side(s, n),
        0 <= i < n,
    ensures
        s > 0,
        0 <= i / s < s,
        i == (i / s) * s + i % s,
        0 <= i % s < s,
{
    lemma_fundamental_div_mod(i, s);
    lemma_mod_bound(i, s);
    vstd::arithmetic::div_mod::lemma_div_pos_is_pos(i, s);
    if i / s >= s {
        assert(i >= s * s) by (nonlinear_arith)
            requires
                i == s * (i / s) + i % s,
                i % s >= 0,
                i / s >= s,
                s > 0,
        ;
    }
}

/// Decoding the quad image: the four octets of a split coordinate give back
/// the 32-bit value `u`, and `u / (2^32 - 1)` is the fraction `d / s` of the
/// box rounded down to a multiple of `1 / (2^32 - 1)`.
pub proof fn lemma_quad_round_trip(d: int, s: int)
    requires
        0 <= d <= s,
        s > 0,
    ensures
        ({
            let u = unit_fraction(d, s, QUAD_SCALE as int);
            &&& octet(u, 0) + 256 * octet(u, 1) + 65536 * octet(u, 2) + 16777216 * octet(u, 3) == u
            &&& u * s <= d * QUAD_SCALE < u * s + s
        }),
{
    let m = QUAD_SCALE as int;
    let u = unit_fraction(d, s, m);
    lemma_fundamental_div_mod(d * m, s);
    lemma_mod_bound(d * m, s);
    assert(d * m <= s * m) by (nonlinear_arith)
        requires
            0 <= d <= s,
            m >= 0,
    ;
    if d > 0 {
        vstd::arithmetic::div_mod::lemma_div_pos_is_pos(d * m, s);
        if d * m / s >= m {
            assert(d * m / s <= m) by (nonlinear_arith)
                requires
                    d * m == s * (d * m / s) + (d * m) % s,
                    (d * m) % s >= 0,
                    d * m <= s * m,
                    s > 0,
            ;
        }
    }
    assert(u * s <= d * m < u * s + s) by (nonlinear_arith)
        requires
            d * m == s * (d * m / s) + (d * m) % s,
            0 <= (d * m) % s < s,
            u == d * m / s || (d <= 0 && u == 0 && d == 0),
    ;
    assert(0 <= u <= m);
    lemma_fundamental_div_mod(u, 256);
    lemma_fundamental_div_mod(u / 256, 256);
    lemma_fundamental_div_mod(u / 65536, 256);
    vstd::arithmetic::div_mod::lemma_div_denominator(u, 256, 256);
    vstd::arithmetic::div_mod::lemma_div_denominator(u, 65536, 256);
    assert(u / 16777216 < 256);
    lemma_mod_bound(u / 16777216, 256);
    vstd::arithmetic::div_mod::lemma_small_mod((u / 16777216) as nat, 256);
}

/// Packs a cell's points into square raster tiles.
pub struct Encoder {
    /// The points with positions taken relative to the box's minimum, so that
    /// each coordinate over the box's extent is in `0 ..= 1`.
    normalized: Vec<Point>,
    size: Position,
}

/// A difference of two in-range positions.
pub open spec fn offset_in_range(p: Position) -> bool {
    &&& -2 * crate::point::COORD_LIMIT <= p.x <= 2 * crate::point::COORD_LIMIT
    &&& -2 * crate::point::COORD_LIMIT <= p.y <= 2 * crate::point::COORD_LIMIT
    &&& -2 * crate::point::COORD_LIMIT <= p.z <= 2 * crate::point::COORD_LIMIT
}

/// The point `p` with its position taken relative to `min`.
pub open spec fn relative_to(p: Point, min: Position) -> Point {
    Point {
        position: Position {
            x: (p.position.x - min.x) as i64,
            y: (p.position.y - min.y) as i64,
            z: (p.position.z - min.z) as i64,
        },
        color: p.color,
        intensity: p.intensity,
    }
}

/// The box an encoder normalizes against: the one given, else the box of the
/// points (a zero box at the origin when there are none).
pub open spec fn frame_of(points: Seq<Point>, bbox: Option<BoundingBox>) -> BoundingBox {
    match bbox {
        Some(b) => b,
        None => if points.len() == 0 {
            BoundingBox { min: Position { x: 0, y: 0, z: 0 }, max: Position { x: 0, y: 0, z: 0 } }
        } else {
            box_of(positions_of(points))
        },
    }
}

impl Encoder {
    /// The points relative to the box's minimum.
    pub closed spec fn offsets(&self) -> Seq<Point> {
        self.normalized@
    }

    /// The extent of the box.
    pub closed spec fn extent(&self) -> Position {
        self.size
    }

    pub open spec fn wf(&self) -> bool {
        &&& self.offsets().len() <= MAX_ENCODED_POINTS
        &&& forall|i: int|
            0 <= i < self.offsets().len() ==> offset_in_range(#[trigger] self.offsets()[i].position)
        &&& 0 <= self.extent().x <= 2 * crate::point::COORD_LIMIT
        &&& 0 <= self.extent().y <= 2 * crate::point::COORD_LIMIT
        &&& 0 <= self.extent().z <= 2 * crate::point::COORD_LIMIT
    }

    /// An encoder for `points` against `bbox`, or against the points' own box
    /// when none is given.
    pub fn new(points: &[Point], bbox: Option<BoundingBox>) -> (e: Self)
        requires
            points@.len() <= MAX_ENCODED_POINTS,
            forall|i: int| 0 <= i < points@.len() ==> (#[trigger] points@[i]).in_range(),
            bbox matches Some(b) ==> is_proper(b),
        ensures
            e.wf(),
            e.offsets().len() == points@.len(),
            forall|i: int|
                0 <= i < points@.len() ==> #[trigger] e.offsets()[i] == relative_to(
                    points@[i],
                    frame_of(points@, bbox).min,
                ),
            e.extent() == (Position {
                x: (frame_of(points@, bbox).max.x - frame_of(points@, bbox).min.x) as i64,
                y: (frame_of(points@, bbox).max.y - frame_of(points@, bbox).min.y) as i64,
                z: (frame_of(points@, bbox).max.z - frame_of(points@, bbox).min.z) as i64,
            }),
    {
        let b = match bbox {
            Some(b) => b,
            None => {
                if points.len() == 0 {
                    let o = Position { x: 0, y: 0, z: 0 };
                    BoundingBox { min: o, max: o }
                } else {
                    let ghost ps = positions_of(points@);
                    proof {
                        assert forall|i: int| 0 <= i < ps.len() implies (#[trigger] ps[i]).in_range() by {
                            assert(ps[i] == points@[i].position);
                        }
                        lemma_box_of_proper(ps);
                    }
                    BoundingBox::from_points(points)
                }
            },
        };
        let size = b.size();
        let mut normalized: Vec<Point> = Vec::new();
        let mut i: usize = 0;
        while i < points.len()
            invariant
                is_proper(b),
                b == frame_of(points@, bbox),
                forall|m: int| 0 <= m < points@.len() ==> (#[trigger] points@[m]).in_range(),
                i <= points@.len(),
                normalized@.len() == i,
                forall|m: int|
                    0 <= m < i ==> #[trigger] normalized@[m] == relative_to(points@[m], b.min),
                forall|m: int| 0 <= m < i ==> offset_in_range(#[trigger] normalized@[m].position),
            decreases points@.len() - i,
        {
            let p = points[i];
            normalized.push(
                Point {
                    position: Position {
                        x: p.position.x - b.min.x,
                        y: p.position.y - b.min.y,
                        z: p.position.z - b.min.z,
                    },
                    color: p.color,
                    intensity: p.intensity,
                },
            );
            i += 1;
        }
        Encoder { normalized, size }
    }

    /// The points with positions relative to the box's minimum.
    pub fn normalized(&self) -> (v: &Vec<Point>)
        ensures
            v@ == self.offsets(),
    {
        &self.normalized
    }

    /// The extent of the box on each axis.
    pub fn size(&self) -> (s: Position)
        ensures
            s == self.extent(),
    {
        self.size
    }

    /// The 8-bit position image and the color image, both `ceil(sqrt n)`
    /// pixels square, point `i` at column `i % side` and row `i / side`;
    /// pixels past the last point are zero.
    pub fn encode_8bit(&self) -> (r: (Raster, Raster))
        requires
            self.wf(),
        ensures
            is_side(raster_width(r.0) as int, self.offsets().len() as int),
            raster_height(r.0) == raster_width(r.0),
            raster_width(r.1) == raster_width(r.0),
            raster_height(r.1) == raster_width(r.0),
            raster_bytes(r.0) == packed(
                self.offsets().map_values(|p: Point| position_pixel(p, self.extent())),
                4 * raster_width(r.0) * raster_width(r.0),
            ),
            raster_bytes(r.1) == packed(
                self.offsets().map_values(|p: Point| color_pixel(p)),
                4 * raster_width(r.0) * raster_width(r.0),
            ),
    {
        let n = self.normalized.len();
        let side = image_side(n);
        proof {
            assert(4 * side * side <= 1_073_610_756) by (nonlinear_arith)
                requires
                    side * side <= 268_402_689,
            ;
        }
        let len = 4 * side * side;
        let mut position = Raster::blank(side, side);
        let mut color = Raster::blank(side, side);
        let ghost pos_pix = self.offsets().map_values(|p: Point| position_pixel(p, self.extent()));
        let ghost col_pix = self.offsets().map_values(|p: Point| color_pixel(p));
        proof {
            assert(raster_bytes(position) =~= packed(pos_pix.take(0), len as nat));
            assert(raster_bytes(color) =~= packed(col_pix.take(0), len as nat));
        }
        let mut i: usize = 0;
        while i < n
            invariant
                n == self.offsets().len(),
                n <= MAX_ENCODED_POINTS,
                is_side(side as int, n as int),
                side <= 16383,
                self.wf(),
                len == 4 * side * side,
                i <= n,
                pos_pix == self.offsets().map_values(|p: Point| position_pixel(p, self.extent())),
                col_pix == self.offsets().map_values(|p: Point| color_pixel(p)),
                raster_width(position) == side && raster_height(position) == side,
                raster_width(color) == side && raster_height(color) == side,
                raster_bytes(position) == packed(pos_pix.take(i as int), len as nat),
                raster_bytes(color) == packed(col_pix.take(i as int), len as nat),
            decreases n - i,
        {
            proof {
                lemma_row_in_image(n as int, side as int, i as int);
            }
            let y = (i as u32) / side;
            let x = (i as u32) % side;
            let p = &self.normalized[i];
            let px = [
                unit_fraction_u8(p.position.x, self.size.x),
                unit_fraction_u8(p.position.y, self.size.y),
                unit_fraction_u8(p.position.z, self.size.z),
                255u8,
            ];
            let c = match p.color {
                Some(c) => c,
                None => Color::white(),
            };
            let ghost before_p = raster_bytes(position);
            let ghost before_c = raster_bytes(color);
            position.put(x, y, px);
            color.put(x, y, [c.red, c.green, c.blue, 255u8]);
            proof {
                assert(y * side + x == i);
                assert(4 * side * side == 4 * (side * side)) by (nonlinear_arith);
                lemma_pack_one(pos_pix, i as int, len as nat, before_p, raster_bytes(position));
                lemma_pack_one(col_pix, i as int, len as nat, before_c, raster_bytes(color));
            }
            i += 1;
        }
        proof {
            assert(pos_pix.take(n as int) == pos_pix);
            assert(col_pix.take(n as int) == col_pix);
        }
        (position, color)
    }

    /// One image of side `2 * ceil(sqrt n)`: each coordinate, scaled to
    /// `0 ..= 2^32 - 1`, is split into four octets, lowest first, which go to
    /// the same place in the four quadrants (top left, top right, bottom left,
    /// bottom right).
    #[verifier::rlimit(40)]
    pub fn encode_8bit_quad(&self, use_alpha_channel_as_color: bool) -> (img: Raster)
        requires
            self.wf(),
        ensures
            raster_width(img) % 2 == 0,
            is_side(raster_width(img) as int / 2, self.offsets().len() as int),
            raster_height(img) == raster_width(img),
            raster_bytes(img).len() == 4 * raster_width(img) * raster_width(img),
            forall|j: int|
                0 <= j < self.offsets().len() ==> quad_written(
                    raster_bytes(img),
                    #[trigger] self.offsets()[j],
                    self.extent(),
                    use_alpha_channel_as_color,
                    raster_width(img) as int / 2,
                    j,
                ),
            forall|q: int, c: int|
                0 <= q < raster_width(img) * raster_width(img) && 0 <= c < 4 && unused_quad_pixel(
                    q,
                    raster_width(img) as int / 2,
                    self.offsets().len() as int,
                ) ==> #[trigger] raster_bytes(img)[4 * q + c] == 0,
    {
        let n = self.normalized.len();
        let side = image_side(n);
        proof {
            assert(4 * (2 * side) * (2 * side) == 16 * side * side && 16 * side * side
                <= 4_294_443_024) by (nonlinear_arith)
                requires
                    side * side <= 268_402_689,
            ;
        }
        let mut img = Raster::blank(2 * side, 2 * side);
        let ghost s = side as int;
        proof {
            assert(16 * s * s == 4 * (4 * s * s)) by (nonlinear_arith);
        }
        let ghost alpha = use_alpha_channel_as_color;
        let mut i: usize = 0;
        while i < n
            invariant
                n == self.offsets().len(),
                self.wf(),
                is_side(s, n as int),
                s == side,
                side <= 16383,
                i <= n,
                alpha == use_alpha_channel_as_color,
                raster_width(img) == 2 * side && raster_height(img) == 2 * side,
                raster_bytes(img).len() == 16 * s * s,
                forall|j: int|
                    0 <= j < i ==> quad_written(
                        raster_bytes(img),
                        #[trigger] self.offsets()[j],
                        self.extent(),
                        alpha,
                        s,
                        j,
                    ),
                forall|q: int, c: int|
                    0 <= q < 4 * s * s && 0 <= c < 4 && unused_quad_pixel(q, s, i as int)
                        ==> #[trigger] raster_bytes(img)[4 * q + c] == 0,
            decreases n - i,
        {
            proof {
                lemma_row_in_image(n as int, s, i as int);
            }
            let y = (i as u32) / side;
            let x = (i as u32) % side;
            let p = &self.normalized[i];
            let ux = unit_fraction_u32(p.position.x, self.size.x);
            let uy = unit_fraction_u32(p.position.y, self.size.y);
            let uz = unit_fraction_u32(p.position.z, self.size.z);
            let c = match p.color {
                Some(c) => c,
                None => Color::white(),
            };
            let ghost b0 = raster_bytes(img);
            let a0 = if use_alpha_channel_as_color {
                c.red
            } else {
                255u8
            };
            let a1 = if use_alpha_channel_as_color {
                c.green
            } else {
                255u8
            };
            let a2 = if use_alpha_channel_as_color {
                c.blue
            } else {
                255u8
            };
            proof {
                assert forall|k: int| 0 <= k < 4 implies 0 <= #[trigger] quad_index(i as int, s, k)
                    < 4 * s * s by {
                    lemma_quad_index(n as int, s, i as int, k);
                }
                let (yi, xi) = (i as int / s, i as int % s);
                assert(y == yi && x == xi);
                assert(quad_index(i as int, s, 0) == yi * (2 * s) + xi) by (nonlinear_arith)
                    requires
                        quad_index(i as int, s, 0) == (yi + s * (0int / 2)) * (2 * s) + (xi + s * (
                        0int % 2)),
                ;
                assert(quad_index(i as int, s, 1) == yi * (2 * s) + (xi + s)) by (nonlinear_arith)
                    requires
                        quad_index(i as int, s, 1) == (yi + s * (1int / 2)) * (2 * s) + (xi + s * (
                        1int % 2)),
                ;
                assert(quad_index(i as int, s, 2) == (yi + s) * (2 * s) + xi) by (nonlinear_arith)
                    requires
                        quad_index(i as int, s, 2) == (yi + s * (2int / 2)) * (2 * s) + (xi + s * (
                        2int % 2)),
                ;
                assert(quad_index(i as int, s, 3) == (yi + s) * (2 * s) + (xi + s))
                    by (nonlinear_arith)
                    requires
                        quad_index(i as int, s, 3) == (yi + s * (3int / 2)) * (2 * s) + (xi + s * (
                        3int % 2)),
                ;
            }
            let ghost w = raster_width(img) as int;
            let pix0 = [octet_u8(ux, 0), octet_u8(uy, 0), octet_u8(uz, 0), a0];
            let pix1 = [octet_u8(ux, 1), octet_u8(uy, 1), octet_u8(uz, 1), a1];
            let pix2 = [octet_u8(ux, 2), octet_u8(uy, 2), octet_u8(uz, 2), a2];
            let pix3 = [octet_u8(ux, 3), octet_u8(uy, 3), octet_u8(uz, 3), 255u8];
            img.put(x, y, pix0);
            let ghost b1 = raster_bytes(img);
            img.put(x + side, y, pix1);
            let ghost b2 = raster_bytes(img);
            img.put(x, y + side, pix2);
            let ghost b3 = raster_bytes(img);
            img.put(x + side, y + side, pix3);
            proof {
                let bytes = raster_bytes(img);
                let q0 = quad_index(i as int, s, 0);
                let q1 = quad_index(i as int, s, 1);
                let q2 = quad_index(i as int, s, 2);
                let q3 = quad_index(i as int, s, 3);
                assert(w == 2 * s);
                assert(16 * s * s == 4 * (4 * s * s)) by (nonlinear_arith);
                assert(4 * q3 + 3 < b0.len() && 4 * q2 + 3 < b0.len() && 4 * q1 + 3 < b0.len() && 4
                    * q0 + 3 < b0.len());
                assert(b1 == b0.update(4 * q0, pix0[0]).update(4 * q0 + 1, pix0[1]).update(
                    4 * q0 + 2,
                    pix0[2],
                ).update(4 * q0 + 3, pix0[3]));
                assert(b2 == b1.update(4 * q1, pix1[0]).update(4 * q1 + 1, pix1[1]).update(
                    4 * q1 + 2,
                    pix1[2],
                ).update(4 * q1 + 3, pix1[3]));
                assert(b3 == b2.update(4 * q2, pix2[0]).update(4 * q2 + 1, pix2[1]).update(
                    4 * q2 + 2,
                    pix2[2],
                ).update(4 * q2 + 3, pix2[3]));
                assert(bytes == b3.update(4 * q3, pix3[0]).update(4 * q3 + 1, pix3[1]).update(
                    4 * q3 + 2,
                    pix3[2],
                ).update(4 * q3 + 3, pix3[3]));
                assert(bytes.len() == b0.len());
                assert forall|k: int, l: int| 0 <= k < 4 && 0 <= l < 4 && k != l implies #[trigger] quad_index(i as int, s, k)
                    != #[trigger] quad_index(i as int, s, l) by {
                    if quad_index(i as int, s, k) == quad_index(i as int, s, l) {
                        lemma_quad_injective(n as int, s, i as int, k, i as int, l);
                    }
                }
                assert forall|qq: int, c: int|
                    0 <= qq < 4 * s * s && 0 <= c < 4 && unused_quad_pixel(qq, s, i + 1) implies #[trigger] bytes[4
                    * qq + c] == 0 by {
                    assert(quad_index(i as int, s, 0) != qq);
                    assert(quad_index(i as int, s, 1) != qq);
                    assert(quad_index(i as int, s, 2) != qq);
                    assert(quad_index(i as int, s, 3) != qq);
                    assert(unused_quad_pixel(qq, s, i as int));
                    assert(b0[4 * qq + c] == 0);
                }
                assert forall|j: int| 0 <= j < i + 1 implies quad_written(
                    bytes,
                    #[trigger] self.offsets()[j],
                    self.extent(),
                    alpha,
                    s,
                    j,
                ) by {
                    assert forall|k: int, cc: int| 0 <= k < 4 && 0 <= cc < 4 implies bytes[4
                        * quad_index(j, s, k) + cc] == #[trigger] quad_pixel(
                        self.offsets()[j],
                        self.extent(),
                        k,
                        alpha,
                    )[cc] by {
                        lemma_quad_index(n as int, s, j, k);
                        let qj = quad_index(j, s, k);
                        if j < i {
                            assert forall|l: int| 0 <= l < 4 implies qj
                                != #[trigger] quad_index(i as int, s, l) by {
                                if qj == quad_index(i as int, s, l) {
                                    lemma_quad_injective(n as int, s, j, k, i as int, l);
                                }
                            }
                            assert(qj != q0 && qj != q1 && qj != q2 && qj != q3);
                            assert(bytes[4 * qj + cc] == b0[4 * qj + cc]);
                        } else {
                            assert(j == i);
                        }
                    }
                }
            }
            i += 1;
        }
        proof {
            assert(raster_width(img) as int / 2 == s);
            assert(raster_width(img) * raster_width(img) == 4 * s * s) by (nonlinear_arith)
                requires
                    raster_width(img) == 2 * s,
            ;
        }
        img
    }
}

/// Pixel `k` of point `i` lies in the quad image, at column
/// `i % s + s * (k % 2)` and row `i / s + s * (k / 2)`.
proof fn lemma_quad_index(n: int, s: int, i: int, k: int)
    requires
        is_side(s, n),
        0 <= i < n,
        0 <= k < 4,
    ensures
        quad_index(i, s, k) == (i / s + s * (k / 2)) * (2 * s) + (i % s + s * (k % 2)),
        0 <= i % s + s * (k % 2) < 2 * s,
        0 <= i / s + s * (k / 2) < 2 * s,
        0 <= quad_index(i, s, k) < 4 * s * s,
{
    lemma_row_in_image(n, s, i);
    let xx = i % s + s * (k % 2);
    let yy = i / s + s * (k / 2);
    assert(0 <= xx < 2 * s && 0 <= yy < 2 * s) by (nonlinear_arith)
        requires
            xx == i % s + s * (k % 2),
            yy == i / s + s * (k / 2),
            0 <= i % s < s,
            0 <= i / s < s,
            0 <= k < 4,
    ;
    assert(0 <= yy * (2 * s) + xx < 4 * s * s) by (nonlinear_arith)
        requires
            0 <= xx < 2 * s,
            0 <= yy < 2 * s,
    ;
}

/// No two pixels of the quad image are shared.
proof fn lemma_quad_injective(n: int, s: int, i: int, k: int, j: int, l: int)
    requires
        is_side(s, n),
        0 <= i < n,
        0 <= j < n,
        0 <= k < 4,
        0 <= l < 4,
        quad_index(i, s, k) == quad_index(j, s, l),
    ensures
        i == j,
        k == l,
{
    lemma_quad_index(n, s, i, k);
    lemma_quad_index(n, s, j, l);
    lemma_row_in_image(n, s, i);
    lemma_row_in_image(n, s, j);
    let xi = i % s + s * (k % 2);
    let yi = i / s + s * (k / 2);
    let xj = j % s + s * (l % 2);
    let yj = j / s + s * (l / 2);
    lemma_fundamental_div_mod_converse(quad_index(i, s, k), 2 * s, yi, xi);
    lemma_fundamental_div_mod_converse(quad_index(j, s, l), 2 * s, yj, xj);
    assert(xi == xj && yi == yj);
    lemma_fundamental_div_mod_converse(xi, s, k % 2, i % s);
    lemma_fundamental_div_mod_converse(xj, s, l % 2, j % s);
    lemma_fundamental_div_mod_converse(yi, s, k / 2, i / s);
    lemma_fundamental_div_mod_converse(yj, s, l / 2, j / s);
}

/// No pixel of the first `i` points lands on pixel `q` of the quad image.
pub open spec fn unused_quad_pixel(q: int, s: int, i: int) -> bool {
    forall|j: int, k: int| 0 <= j < i && 0 <= k < 4 ==> #[trigger] quad_index(j, s, k) != q
}

/// The four pixels of point `j` hold what the quad image owes it.
pub open spec fn quad_written(
    bytes: Seq<u8>,
    p: Point,
    size: Position,
    alpha_color: bool,
    s: int,
    j: int,
) -> bool {
    forall|k: int, c: int|
        0 <= k < 4 && 0 <= c < 4 ==> bytes[4 * quad_index(j, s, k) + c] == #[trigger] quad_pixel(
            p,
            size,
            k,
            alpha_color,
        )[c]
}

/// Writing pixel `i` into the layout of the first `i` pixels gives the layout
/// of the first `i + 1`.
proof fn lemma_pack_one(pix: Seq<Seq<u8>>, i: int, len: nat, before: Seq<u8>, after: Seq<u8>)
    requires
        0 <= i < pix.len(),
        4 * i + 4 <= len,
        pix[i].len() == 4,
        before == packed(pix.take(i), len),
        after == before.update(4 * i, pix[i][0]).update(4 * i + 1, pix[i][1]).update(
            4 * i + 2,
            pix[i][2],
        ).update(4 * i + 3, pix[i][3]),
    ensures
        after == packed(pix.take(i + 1), len),
{
    let want = packed(pix.take(i + 1), len);
    assert forall|b: int| 0 <= b < len implies after[b] == want[b] by {
        if 4 * i <= b < 4 * i + 4 {
            assert(b / 4 == i);
        } else if b < 4 * i {
            assert(b / 4 < i);
        } else {
            assert(b / 4 > i);
        }
    }
    assert(after =~= want);
}

/// `ceil(sqrt(n))`.
fn image_side(n: usize) -> (s: u32)
    requires
        n <= MAX_ENCODED_POINTS,
    ensures
        is_side(s as int, n as int),
        s <= 16383,
        s * s <= 268_402_689,
{
    let mut s: u64 = 0;
    while s * s < n as u64
        invariant
            s <= 16383,
            s * s <= 268_402_689,
            s == 0 || (s - 1) * (s - 1) < n,
            n <= MAX_ENCODED_POINTS,
        decreases 16383 - s,
    {
        proof {
            assert(s < 16383 && (s + 1) * (s + 1) <= 268_402_689) by (nonlinear_arith)
                requires
                    s * s < n,
                    n <= 268_402_689,
                    s >= 0,
            ;
        }
        s += 1;
    }
    s as u32
}

/// Octet `k` of `u`.
fn octet_u8(u: u32, k: u32) -> (o: u8)
    requires
        k < 4,
    ensures
        o == octet(u as int, k as int),
{
    if k == 0 {
        (u % 256) as u8
    } else if k == 1 {
        (u / 256 % 256) as u8
    } else if k == 2 {
        (u / 65536 % 256) as u8
    } else {
        (u / 16777216 % 256) as u8
    }
}

/// `unit_fraction(d, s, 2^32 - 1)` for an offset and an extent of in-range
/// positions.
fn unit_fraction_u32(d: i64, s: i64) -> (v: u32)
    requires
        -2 * crate::point::COORD_LIMIT <= d <= 2 * crate::point::COORD_LIMIT,
        0 <= s <= 2 * crate::point::COORD_LIMIT,
    ensures
        v == unit_fraction(d as int, s as int, QUAD_SCALE as int),
{
    if s <= 0 {
        if d > 0 {
            4_294_967_295
        } else {
            0
        }
    } else if d <= 0 {
        0
    } else {
        proof {
            assert(0 < d * 4_294_967_295 <= 0x4000_0000_0000_0000 * 4_294_967_295) by (nonlinear_arith)
                requires
                    0 < d <= 0x4000_0000_0000_0000,
            ;
        }
        let q = (d as i128) * 4_294_967_295 / (s as i128);
        if q >= 4_294_967_295 {
            4_294_967_295
        } else {
            q as u32
        }
    }
}

/// `unit_fraction(d, s, 255)` for an offset and an extent of in-range
/// positions.
fn unit_fraction_u8(d: i64, s: i64) -> (v: u8)
    requires
        -2 * crate::point::COORD_LIMIT <= d <= 2 * crate::point::COORD_LIMIT,
        0 <= s <= 2 * crate::point::COORD_LIMIT,
    ensures
        v == unit_fraction(d as int, s as int, 255),
{
    if s <= 0 {
        if d > 0 {
            255
        } else {
            0
        }
    } else if d <= 0 {
        0
    } else {
        let q = (d as i128) * 255 / (s as i128);
        if q >= 255 {
            255
        } else {
            q as u8
        }
    }
}

} // verus!
