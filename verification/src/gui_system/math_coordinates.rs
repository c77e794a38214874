//! Tile positions and the rectangles of tiles that clients subscribe to.

use vstd::prelude::*;

verus! {

/// The maximum zoom level we allow.
pub const MAXIMUM_ZOOM_LEVEL: u8 = 19;

/// The size of a tile in pixel coordinates.
pub const TILE_SIZE_PIXEL: u32 = 256;

/// A position of a tile in rounded coordinates.
#[derive(Debug, Clone, Copy, PartialEq, Eq, Hash, Structural)]
pub struct TilePosition {
    pub x: u32,
    pub y: u32,
    pub zoom: u8,
}

/// A frame of tiles: the columns `x_min .. x_min + width` and the rows `y_min .. y_min + height`
/// of one zoom level.
#[derive(Debug, Clone, Copy, PartialEq, Eq, Structural)]
pub struct BoundingRectangle {
    pub x_min: u32,
    pub y_min: u32,
    pub width: u32,
    pub height: u32,
    pub zoom: u8,
}

/// Describes which tiles have changed.
#[derive(Debug, Clone)]
pub struct TileChange {
    pub deleted: Vec<TilePosition>,
    pub added: Vec<TilePosition>,
}

/// Why a requested rectangle has no tiles.
#[derive(Debug, Clone, Copy, PartialEq, Eq, Structural)]
pub enum RectConversionError {
    NegativeSize,
    OutOfWorld,
}

impl TilePosition {
    /// The tile exists: the zoom level is at most the maximum and both coordinates are below
    /// the number of tiles per row of that level.
    pub open spec fn is_sane(&self) -> bool {
        &&& self.zoom <= MAXIMUM_ZOOM_LEVEL
        &&& self.x < pow2_u32(self.zoom)
        &&& self.y < pow2_u32(self.zoom)
    }

    /// Checks that the tile exists.
    pub fn check_sanity(&self) -> (r: bool)
        ensures
            r == self.is_sane(),
    {
        if self.zoom > MAXIMUM_ZOOM_LEVEL {
            return false;
        }
        let count = tiles_per_row(self.zoom);
        self.x < count && self.y < count
    }
}

/// Two to the power of a zoom level, for the levels a tile position can have.
pub open spec fn pow2_u32(zoom: u8) -> nat
    decreases zoom,
{
    if zoom == 0 {
        1
    } else {
        2 * pow2_u32((zoom - 1) as u8)
    }
}

/// The number of tiles per row of a zoom level.
fn tiles_per_row(zoom: u8) -> (r: u32)
    requires
        zoom <= MAXIMUM_ZOOM_LEVEL,
    ensures
        r == pow2_u32(zoom),
    decreases zoom,
{
    if zoom == 0 {
        1
    } else {
        let half = tiles_per_row(zoom - 1);
        proof {
            lemma_pow2_bound((zoom - 1) as u8);
        }
        2 * half
    }
}

proof fn lemma_pow2_positive(a: u8)
    ensures
        1 <= pow2_u32(a),
    decreases a,
{
    if a > 0 {
        lemma_pow2_positive((a - 1) as u8);
    }
}

proof fn lemma_pow2_monotonic(a: u8, b: u8)
    requires
        a <= b,
    ensures
        1 <= pow2_u32(a) <= pow2_u32(b),
    decreases b,
{
    lemma_pow2_positive(a);
    if b > a {
        lemma_pow2_monotonic(a, (b - 1) as u8);
    }
}

proof fn lemma_pow2_bound(zoom: u8)
    requires
        zoom <= MAXIMUM_ZOOM_LEVEL,
    ensures
        1 <= pow2_u32(zoom) <= 0x80000,
{
    lemma_pow2_monotonic(zoom, 19);
    reveal_with_fuel(pow2_u32, 20);
    assert(pow2_u32(19) == 0x80000);
}

impl BoundingRectangle {
    /// The columns and rows are representable one past their end.
    pub open spec fn fits(&self) -> bool {
        &&& self.x_min + self.width <= u32::MAX
        &&& self.y_min + self.height <= u32::MAX
    }

    /// The rectangle is not empty and fits.
    pub open spec fn is_valid(&self) -> bool {
        &&& self.width >= 1
        &&& self.height >= 1
        &&& self.fits()
    }

    /// Whether the rectangle holds the position.
    pub open spec fn holds(&self, p: TilePosition) -> bool {
        &&& p.zoom == self.zoom
        &&& self.x_min <= p.x < self.x_min + self.width
        &&& self.y_min <= p.y < self.y_min + self.height
    }

    /// The positions of the rectangle, column by column, each column from top to bottom.
    pub open spec fn positions(&self) -> Seq<TilePosition> {
        Seq::new(
            (self.width * self.height) as nat,
            |k: int|
                TilePosition {
                    x: (self.x_min + k / self.height as int) as u32,
                    y: (self.y_min + k % self.height as int) as u32,
                    zoom: self.zoom,
                },
        )
    }
}


/// The rectangles whose frame `union` can compute: both fit and lie on one zoom level, the
/// last column and row of each, one before its end, is not below zero, and in each direction one
/// of them is not empty or both start at different places, so that the frame is not empty.
pub open spec fn union_defined(a: BoundingRectangle, b: BoundingRectangle) -> bool {
    &&& a.fits()
    &&& b.fits()
    &&& a.zoom == b.zoom
    &&& a.x_min + a.width >= 1
    &&& a.y_min + a.height >= 1
    &&& b.x_min + b.width >= 1
    &&& b.y_min + b.height >= 1
    &&& (a.width > 0 || b.width > 0 || a.x_min != b.x_min)
    &&& (a.height > 0 || b.height > 0 || a.y_min != b.y_min)
}

/// The rectangle that holds both.
pub open spec fn spec_union(a: BoundingRectangle, b: BoundingRectangle) -> BoundingRectangle {
    let x_min = if a.x_min <= b.x_min {
        a.x_min
    } else {
        b.x_min
    };
    let y_min = if a.y_min <= b.y_min {
        a.y_min
    } else {
        b.y_min
    };
    let x_end = if a.x_min + a.width >= b.x_min + b.width {
        a.x_min + a.width
    } else {
        b.x_min + b.width
    };
    let y_end = if a.y_min + a.height >= b.y_min + b.height {
        a.y_min + a.height
    } else {
        b.y_min + b.height
    };
    BoundingRectangle {
        x_min,
        y_min,
        width: (x_end - x_min) as u32,
        height: (y_end - y_min) as u32,
        zoom: a.zoom,
    }
}

/// A coordinate clamped into `0 ..= max_value` and then into the range of `u32`.
pub open spec fn clamp_coordinate(v: i64, max_value: i64) -> u32 {
    let c = if v < 0 {
        0
    } else if v > max_value {
        max_value
    } else {
        v
    };
    if c > u32::MAX {
        u32::MAX
    } else {
        c as u32
    }
}

/// Whether the corners lie outside the tiles of the zoom level.
pub open spec fn out_of_world(min_x: i64, min_y: i64, max_x: i64, max_y: i64, max_value: i64) -> bool {
    max_x < 0 || max_y < 0 || min_x > max_value || min_y > max_value
}

proof fn lemma_index_split(w: int, h: int, height: int)
    requires
        0 <= w,
        0 <= h < height,
    ensures
        (w * height + h) / height == w,
        (w * height + h) % height == h,
{
    assert((w * height + h) / height == w) by (nonlinear_arith)
        requires
            0 <= w,
            0 <= h < height,
    ;
    assert((w * height + h) % height == h) by (nonlinear_arith)
        requires
            0 <= w,
            0 <= h < height,
    ;
}

fn clamp_to(v: i64, max_value: i64) -> (r: u32)
    requires
        max_value >= 0,
    ensures
        r == clamp_coordinate(v, max_value),
{
    let c = if v < 0 {
        0
    } else if v > max_value {
        max_value
    } else {
        v
    };
    if c > u32::MAX as i64 {
        u32::MAX
    } else {
        c as u32
    }
}

impl BoundingRectangle {
    /// Gets the bounding rectangle of a bunch of tile positions of one zoom level: the smallest
    /// rectangle that holds all of them.
    pub fn new(positions: &[TilePosition]) -> (r: Self)
        requires
            positions@.len() > 0,
            forall|i: int| 0 <= i < positions@.len() ==> (#[trigger] positions@[i]).is_sane(),
            forall|i: int|
                0 <= i < positions@.len() ==> (#[trigger] positions@[i]).zoom == positions@[0].zoom,
        ensures
            r.is_valid(),
            r.zoom == positions@[0].zoom,
            forall|i: int| 0 <= i < positions@.len() ==> r.holds(#[trigger] positions@[i]),
            exists|i: int| 0 <= i < positions@.len() && (#[trigger] positions@[i]).x == r.x_min,
            exists|i: int| 0 <= i < positions@.len() && (#[trigger] positions@[i]).y == r.y_min,
            exists|i: int|
                0 <= i < positions@.len() && (#[trigger] positions@[i]).x + 1 == r.x_min + r.width,
            exists|i: int|
                0 <= i < positions@.len() && (#[trigger] positions@[i]).y + 1 == r.y_min + r.height,
    {
        let mut x_min: u32 = u32::MAX;
        let mut y_min: u32 = u32::MAX;
        let mut x_max: u32 = 0;
        let mut y_max: u32 = 0;
        let mut i: usize = 0;
        let ghost mut wx0: int = 0;
        let ghost mut wy0: int = 0;
        let ghost mut wx1: int = 0;
        let ghost mut wy1: int = 0;
        while i < positions.len()
            invariant
                0 <= i <= positions@.len(),
                forall|t: int| 0 <= t < positions@.len() ==> (#[trigger] positions@[t]).is_sane(),
                forall|t: int|
                    0 <= t < i ==> x_min <= (#[trigger] positions@[t]).x <= x_max && y_min
                        <= positions@[t].y <= y_max,
                i == 0 ==> x_min == u32::MAX && y_min == u32::MAX && x_max == 0 && y_max == 0,
                i > 0 ==> 0 <= wx0 < i && positions@[wx0].x == x_min,
                i > 0 ==> 0 <= wy0 < i && positions@[wy0].y == y_min,
                i > 0 ==> 0 <= wx1 < i && positions@[wx1].x == x_max,
                i > 0 ==> 0 <= wy1 < i && positions@[wy1].y == y_max,
            decreases positions@.len() - i,
        {
            let tile = positions[i];
            proof {
                assert(positions@[i as int] == tile);
                assert(tile.is_sane());
                lemma_pow2_bound(tile.zoom);
                assert(tile.x < 0x80000 && tile.y < 0x80000);
                if i == 0 {
                    wx0 = 0;
                    wy0 = 0;
                    wx1 = 0;
                    wy1 = 0;
                }
            }
            if tile.x < x_min {
                x_min = tile.x;
                proof {
                    wx0 = i as int;
                }
            }
            if tile.y < y_min {
                y_min = tile.y;
                proof {
                    wy0 = i as int;
                }
            }
            if tile.x > x_max {
                x_max = tile.x;
                proof {
                    wx1 = i as int;
                }
            }
            if tile.y > y_max {
                y_max = tile.y;
                proof {
                    wy1 = i as int;
                }
            }
            proof {
                assert(positions@[i as int] == tile);
            }
            i = i + 1;
        }
        proof {
            let tx = wx1;
            let ty = wy1;
            assert(positions@[wx0].x == x_min);
            assert(positions@[wy0].y == y_min);
            lemma_pow2_bound(positions@[tx].zoom);
            lemma_pow2_bound(positions@[ty].zoom);
            assert(positions@[tx].x == x_max);
            assert(positions@[ty].y == y_max);
            assert(x_min <= positions@[0].x <= x_max);
        }
        BoundingRectangle {
            x_min,
            y_min,
            width: x_max - x_min + 1,
            height: y_max - y_min + 1,
            zoom: positions[0].zoom,
        }
    }

    /// The tile positions of the rectangle, column by column.
    pub fn get_iterator(&self) -> (r: Vec<TilePosition>)
        requires
            self.fits(),
        ensures
            r@ == self.positions(),
    {
        let mut result: Vec<TilePosition> = Vec::new();
        let mut w: u32 = 0;
        while w < self.width
            invariant
                self.fits(),
                0 <= w <= self.width,
                result@.len() == w * self.height,
                forall|k: int| 0 <= k < w * self.height ==> #[trigger] result@[k] == self.positions()[k],
            decreases self.width - w,
        {
            let mut h: u32 = 0;
            while h < self.height
                invariant
                    self.fits(),
                    0 <= w < self.width,
                    0 <= h <= self.height,
                    result@.len() == w * self.height + h,
                    forall|k: int|
                        0 <= k < w * self.height + h ==> #[trigger] result@[k] == self.positions()[k],
                decreases self.height - h,
            {
                proof {
                    lemma_index_split(w as int, h as int, self.height as int);
                    assert(w * self.height + h < self.width * self.height) by (nonlinear_arith)
                        requires
                            w < self.width,
                            h < self.height,
                    ;
                }
                result.push(TilePosition { x: self.x_min + w, y: self.y_min + h, zoom: self.zoom });
                h = h + 1;
            }
            proof {
                assert((w + 1) * self.height == w * self.height + self.height) by (nonlinear_arith);
            }
            w = w + 1;
        }
        proof {
            assert(result@.len() == self.width * self.height);
        }
        assert(result@ =~= self.positions());
        result
    }

    /// Generates the bounding rectangle that includes both.
    pub fn union(&self, other: &Self) -> (r: Self)
        requires
            union_defined(*self, *other),
        ensures
            r == spec_union(*self, *other),
            r.is_valid(),
            forall|p: TilePosition| self.holds(p) || other.holds(p) ==> #[trigger] r.holds(p),
            r.x_min <= self.x_min && r.x_min <= other.x_min,
            r.x_min == self.x_min || r.x_min == other.x_min,
            r.y_min <= self.y_min && r.y_min <= other.y_min,
            r.y_min == self.y_min || r.y_min == other.y_min,
            r.x_min + r.width >= self.x_min + self.width && r.x_min + r.width >= other.x_min
                + other.width,
            r.x_min + r.width == self.x_min + self.width || r.x_min + r.width == other.x_min
                + other.width,
            r.y_min + r.height >= self.y_min + self.height && r.y_min + r.height >= other.y_min
                + other.height,
            r.y_min + r.height == self.y_min + self.height || r.y_min + r.height == other.y_min
                + other.height,
            r.zoom == self.zoom,
    {
        let x_min = if self.x_min <= other.x_min {
            self.x_min
        } else {
            other.x_min
        };
        let y_min = if self.y_min <= other.y_min {
            self.y_min
        } else {
            other.y_min
        };
        let a_x_max = self.x_min + self.width - 1;
        let b_x_max = other.x_min + other.width - 1;
        let a_y_max = self.y_min + self.height - 1;
        let b_y_max = other.y_min + other.height - 1;
        let x_max = if a_x_max >= b_x_max {
            a_x_max
        } else {
            b_x_max
        };
        let y_max = if a_y_max >= b_y_max {
            a_y_max
        } else {
            b_y_max
        };
        BoundingRectangle {
            x_min,
            y_min,
            width: x_max - x_min + 1,
            height: y_max - y_min + 1,
            zoom: self.zoom,
        }
    }

    /// Whether the columns and rows are representable one past their end.
    pub fn check_fits(&self) -> (r: bool)
        ensures
            r == self.fits(),
    {
        (self.x_min as u64) + (self.width as u64) <= (u32::MAX as u64) && (self.y_min as u64) + (
        self.height as u64) <= (u32::MAX as u64)
    }

    /// Whether `union` can compute the frame around this rectangle and the other one.
    pub fn can_unite(&self, other: &Self) -> (r: bool)
        ensures
            r == union_defined(*self, *other),
    {
        self.check_fits() && other.check_fits() && self.zoom == other.zoom && (self.x_min as u64)
            + (self.width as u64) >= 1 && (self.y_min as u64) + (self.height as u64) >= 1 && (
        other.x_min as u64) + (other.width as u64) >= 1 && (other.y_min as u64) + (
        other.height as u64) >= 1 && (self.width > 0 || other.width > 0 || self.x_min
            != other.x_min) && (self.height > 0 || other.height > 0 || self.y_min != other.y_min)
    }

    /// Whether the position lies in the rectangle.
    pub fn contains_position(&self, coordinates: &TilePosition) -> (r: bool)
        requires
            self.fits(),
        ensures
            r == self.holds(*coordinates),
    {
        (self.zoom == coordinates.zoom) && (self.x_min <= coordinates.x && coordinates.x < self.x_min
            + self.width) && (self.y_min <= coordinates.y && coordinates.y < self.y_min
            + self.height)
    }

    /// The rectangle of the tiles between two corners, from corner coordinates that were
    /// rounded down, and the largest coordinate of the zoom level: `OutOfWorld` where the
    /// corners lie outside the tiles, else the corners clamped to the tiles.
    pub fn from_floored_corners(
        min_x: i64,
        min_y: i64,
        max_x: i64,
        max_y: i64,
        max_value: i64,
        zoom: u8,
    ) -> (r: Result<Self, RectConversionError>)
        requires
            max_value >= 0,
            min_x <= max_x,
            min_y <= max_y,
            !out_of_world(min_x, min_y, max_x, max_y, max_value) ==> clamp_coordinate(max_x, max_value)
                - clamp_coordinate(min_x, max_value) + 1 <= u32::MAX && clamp_coordinate(
                max_y,
                max_value,
            ) - clamp_coordinate(min_y, max_value) + 1 <= u32::MAX,
        ensures
            r == (if out_of_world(min_x, min_y, max_x, max_y, max_value) {
                Err(RectConversionError::OutOfWorld)
            } else {
                Ok(
                    BoundingRectangle {
                        x_min: clamp_coordinate(min_x, max_value),
                        y_min: clamp_coordinate(min_y, max_value),
                        width: (clamp_coordinate(max_x, max_value) - clamp_coordinate(
                            min_x,
                            max_value,
                        ) + 1) as u32,
                        height: (clamp_coordinate(max_y, max_value) - clamp_coordinate(
                            min_y,
                            max_value,
                        ) + 1) as u32,
                        zoom,
                    },
                )
            }),
    {
        if max_x < 0 || max_y < 0 || min_x > max_value || min_y > max_value {
            return Err(RectConversionError::OutOfWorld);
        }
        let x_min_new = clamp_to(min_x, max_value);
        let y_min_new = clamp_to(min_y, max_value);
        let x_max_new = clamp_to(max_x, max_value);
        let y_max_new = clamp_to(max_y, max_value);
        Ok(
            BoundingRectangle {
                x_min: x_min_new,
                y_min: y_min_new,
                width: x_max_new - x_min_new + 1,
                height: y_max_new - y_min_new + 1,
                zoom,
            },
        )
    }
}

/// The tiles of `old` that `new` does not hold, in the order of the frame around both; all of
/// `old` on another zoom level.
pub open spec fn deleted_tiles(old: BoundingRectangle, new: BoundingRectangle) -> Seq<TilePosition> {
    if old.zoom != new.zoom {
        old.positions()
    } else {
        spec_union(old, new).positions().filter(|p: TilePosition| old.holds(p) && !new.holds(p))
    }
}

/// The tiles of `new` that `old` does not hold, in the order of the frame around both; all of
/// `new` on another zoom level.
pub open spec fn added_tiles(old: BoundingRectangle, new: BoundingRectangle) -> Seq<TilePosition> {
    if old.zoom != new.zoom {
        new.positions()
    } else {
        spec_union(old, new).positions().filter(|p: TilePosition| !old.holds(p) && new.holds(p))
    }
}

pub(crate) proof fn lemma_filter_step<A>(s: Seq<A>, pred: spec_fn(A) -> bool, i: int)
    requires
        0 <= i < s.len(),
    ensures
        s.take(i + 1).filter(pred) == (if pred(s[i]) {
            s.take(i).filter(pred).push(s[i])
        } else {
            s.take(i).filter(pred)
        }),
{
    reveal(Seq::filter);
    assert(s.take(i + 1).drop_last() =~= s.take(i));
    assert(s.take(i + 1).last() == s[i]);
}

/// A rectangle that fits lists exactly the positions it holds.
pub proof fn lemma_positions_hold(r: BoundingRectangle, p: TilePosition)
    requires
        r.fits(),
    ensures
        r.positions().contains(p) == r.holds(p),
{
    let h = r.height as int;
    if r.holds(p) {
        let w = p.x - r.x_min;
        let v = p.y - r.y_min;
        lemma_index_split(w, v, h);
        assert(w * h + v < r.width * h) by (nonlinear_arith)
            requires
                0 <= w < r.width,
                0 <= v < h,
        ;
        assert(r.positions()[w * h + v] == p);
    }
    if r.positions().contains(p) {
        let k = choose|k: int| 0 <= k < r.positions().len() && r.positions()[k] == p;
        assert(h >= 1) by (nonlinear_arith)
            requires
                0 <= k < r.width * h,
                0 <= r.width,
                0 <= h,
        ;
        assert(0 <= k / h < r.width && 0 <= k % h < h) by (nonlinear_arith)
            requires
                0 <= k < r.width * h,
                h >= 1,
        ;
    }
}

/// Updating the tiles of `old` by the change to `new` gives the tiles of `new`: the deleted
/// tiles are those of `old` that `new` does not hold and the added tiles those of `new` that
/// `old` does not hold.
pub proof fn lemma_deletion_creation(old: BoundingRectangle, new: BoundingRectangle, p: TilePosition)
    requires
        old.fits(),
        new.fits(),
        old.zoom == new.zoom ==> union_defined(old, new),
    ensures
        deleted_tiles(old, new).contains(p) == (old.holds(p) && !new.holds(p)),
        added_tiles(old, new).contains(p) == (!old.holds(p) && new.holds(p)),
        new.holds(p) == ((old.holds(p) && !deleted_tiles(old, new).contains(p)) || added_tiles(
            old,
            new,
        ).contains(p)),
{
    broadcast use vstd::seq_lib::group_filter_ensures;

    lemma_positions_hold(old, p);
    lemma_positions_hold(new, p);
    if old.zoom == new.zoom {
        let frame = spec_union(old, new);
        lemma_positions_hold(frame, p);
        let del = |q: TilePosition| old.holds(q) && !new.holds(q);
        let add_pred = |q: TilePosition| !old.holds(q) && new.holds(q);
        if frame.positions().filter(del).contains(p) {
            let j = choose|j: int|
                0 <= j < frame.positions().filter(del).len() && frame.positions().filter(del)[j]
                    == p;
            assert(del(frame.positions().filter(del)[j]));
        }
        if frame.positions().filter(add_pred).contains(p) {
            let j = choose|j: int|
                0 <= j < frame.positions().filter(add_pred).len() && frame.positions().filter(add_pred)[j]
                    == p;
            assert(add_pred(frame.positions().filter(add_pred)[j]));
        }
        if del(p) || add_pred(p) {
            let k = choose|k: int| 0 <= k < frame.positions().len() && frame.positions()[k] == p;
            assert(frame.positions().filter(del).contains(frame.positions()[k]) == del(p));
            assert(frame.positions().filter(add_pred).contains(frame.positions()[k]) == add_pred(p));
        }
    } else {
        assert(!new.holds(p) || !old.holds(p));
    }
}

impl BoundingRectangle {
    /// Compares the rectangle with a new one and lists which positions have left and which
    /// have arrived.
    pub fn generate_deletion_creation_list(&self, new_rectangle: &BoundingRectangle) -> (r:
        TileChange)
        requires
            self.fits(),
            new_rectangle.fits(),
            self.zoom == new_rectangle.zoom ==> union_defined(*self, *new_rectangle),
        ensures
            r.deleted@ == deleted_tiles(*self, *new_rectangle),
            r.added@ == added_tiles(*self, *new_rectangle),
    {
        // On different zoom levels we must completely replace it.
        if self.zoom != new_rectangle.zoom {
            return TileChange { deleted: self.get_iterator(), added: new_rectangle.get_iterator() };
        }
        let mut added: Vec<TilePosition> = Vec::new();
        let mut deleted: Vec<TilePosition> = Vec::new();
        let frame = self.union(new_rectangle);
        let positions = frame.get_iterator();
        let ghost del = |q: TilePosition| self.holds(q) && !new_rectangle.holds(q);
        let ghost add_pred = |q: TilePosition| !self.holds(q) && new_rectangle.holds(q);
        let mut i: usize = 0;
        proof {
            reveal(Seq::filter);
            assert(positions@.take(0) =~= Seq::<TilePosition>::empty());
        }
        while i < positions.len()
            invariant
                0 <= i <= positions@.len(),
                self.fits(),
                new_rectangle.fits(),
                del == (|q: TilePosition| self.holds(q) && !new_rectangle.holds(q)),
                add_pred == (|q: TilePosition| !self.holds(q) && new_rectangle.holds(q)),
                deleted@ == positions@.take(i as int).filter(del),
                added@ == positions@.take(i as int).filter(add_pred),
            decreases positions@.len() - i,
        {
            let position = positions[i];
            let is_in_old = self.contains_position(&position);
            let is_in_new = new_rectangle.contains_position(&position);
            proof {
                lemma_filter_step(positions@, del, i as int);
                lemma_filter_step(positions@, add_pred, i as int);
            }
            if is_in_old && !is_in_new {
                deleted.push(position);
            }
            if !is_in_old && is_in_new {
                added.push(position);
            }
            i = i + 1;
        }
        proof {
            assert(positions@.take(i as int) =~= positions@);
        }
        TileChange { added, deleted }
    }
}

/// A rectangle that fits lists each of its positions once.
pub proof fn lemma_positions_unique(r: BoundingRectangle)
    requires
        r.fits(),
    ensures
        r.positions().no_duplicates(),
{
    let h = r.height as int;
    assert forall|a: int, b: int|
        0 <= a < r.positions().len() && 0 <= b < r.positions().len() && a != b implies r.positions()[a]
        != r.positions()[b] by {
        assert(h >= 1) by (nonlinear_arith)
            requires
                0 <= a < r.width * h,
                0 <= r.width,
                0 <= h,
        ;
        assert(0 <= a / h < r.width && 0 <= b / h < r.width) by (nonlinear_arith)
            requires
                0 <= a < r.width * h,
                0 <= b < r.width * h,
                h >= 1,
        ;
        assert(0 <= a % h < h && 0 <= b % h < h) by (nonlinear_arith)
            requires
                h >= 1,
        ;
        assert(a == (a / h) * h + a % h && b == (b / h) * h + b % h) by (nonlinear_arith)
            requires
                h >= 1,
        ;
    }
}

/// Filtering a list without duplicates keeps it without duplicates, and keeps exactly the
/// elements that satisfy the predicate.
pub proof fn lemma_filter_unique<A>(s: Seq<A>, pred: spec_fn(A) -> bool)
    requires
        s.no_duplicates(),
    ensures
        s.filter(pred).no_duplicates(),
        forall|x: A| s.filter(pred).contains(x) == (s.contains(x) && pred(x)),
    decreases s.len(),
{
    reveal(Seq::filter);
    if s.len() > 0 {
        let d = s.drop_last();
        assert(d.no_duplicates());
        lemma_filter_unique(d, pred);
        let fd = d.filter(pred);
        assert forall|x: A| s.contains(x) == (d.contains(x) || x == s.last()) by {
            if s.contains(x) {
                let t = choose|t: int| 0 <= t < s.len() && s[t] == x;
                if t < d.len() {
                    assert(d[t] == x);
                }
            }
            if d.contains(x) {
                let t = choose|t: int| 0 <= t < d.len() && d[t] == x;
                assert(s[t] == x);
            }
            if x == s.last() {
                assert(s[s.len() - 1] == x);
            }
        }
        assert(!d.contains(s.last())) by {
            if d.contains(s.last()) {
                let t = choose|t: int| 0 <= t < d.len() && d[t] == s.last();
                assert(s[t] == s[s.len() - 1]);
            }
        }
        if pred(s.last()) {
            let f = fd.push(s.last());
            assert forall|x: A| f.contains(x) == (fd.contains(x) || x == s.last()) by {
                if f.contains(x) {
                    let t = choose|t: int| 0 <= t < f.len() && f[t] == x;
                    if t < fd.len() {
                        assert(fd[t] == x);
                    }
                }
                if fd.contains(x) {
                    let t = choose|t: int| 0 <= t < fd.len() && fd[t] == x;
                    assert(f[t] == x);
                }
                if x == s.last() {
                    assert(f[f.len() - 1] == x);
                }
            }
        }
    }
}

/// The frame around two rectangles is the smallest rectangle that holds both: it starts at the
/// smaller of their first columns and rows and ends with the larger of their ends, on their zoom
/// level.
pub proof fn lemma_union_smallest(a: BoundingRectangle, b: BoundingRectangle)
    requires
        union_defined(a, b),
    ensures
        spec_union(a, b).x_min <= a.x_min && spec_union(a, b).x_min <= b.x_min,
        spec_union(a, b).x_min == a.x_min || spec_union(a, b).x_min == b.x_min,
        spec_union(a, b).y_min <= a.y_min && spec_union(a, b).y_min <= b.y_min,
        spec_union(a, b).y_min == a.y_min || spec_union(a, b).y_min == b.y_min,
        spec_union(a, b).x_min + spec_union(a, b).width >= a.x_min + a.width,
        spec_union(a, b).x_min + spec_union(a, b).width >= b.x_min + b.width,
        spec_union(a, b).x_min + spec_union(a, b).width == a.x_min + a.width || spec_union(
            a,
            b,
        ).x_min + spec_union(a, b).width == b.x_min + b.width,
        spec_union(a, b).y_min + spec_union(a, b).height >= a.y_min + a.height,
        spec_union(a, b).y_min + spec_union(a, b).height >= b.y_min + b.height,
        spec_union(a, b).y_min + spec_union(a, b).height == a.y_min + a.height || spec_union(
            a,
            b,
        ).y_min + spec_union(a, b).height == b.y_min + b.height,
        spec_union(a, b).zoom == a.zoom,
{
}

/// A corner coordinate is clamped onto the tiles `0 ..= max_value`: kept where it lies on them,
/// else moved to the nearer end.
pub proof fn lemma_clamp_coordinate(v: i64, max_value: i64)
    requires
        0 <= max_value <= u32::MAX,
    ensures
        clamp_coordinate(v, max_value) <= max_value,
        0 <= v <= max_value ==> clamp_coordinate(v, max_value) == v,
        v < 0 ==> clamp_coordinate(v, max_value) == 0,
        v > max_value ==> clamp_coordinate(v, max_value) == max_value,
{
}
} // verus!
