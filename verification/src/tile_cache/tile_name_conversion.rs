//! Conversion of tiles to and from the 64 bit tile id, and the names under which a tile is
//! stored in the cache and requested from a web service.

use crate::tile_cache::text::{
    decimal_text, hex_text, hex_value, is_lower_hex_digit, lemma_hex_text, lemma_pow16_16, push_char,
    push_decimal, push_hex,
};
use vstd::prelude::*;

verus! {

/// A tile given by its zoom level and its column and row.
#[derive(Debug, Clone, Copy, PartialEq, Eq, Structural)]
pub struct TileSpecification {
    level: u8,
    x: u32,
    y: u32,
}

/// The tile id: six bits of level, then 29 bits of row, then 29 bits of column.
pub open spec fn tile_id(level: u8, x: u32, y: u32) -> u64 {
    ((level as u64) << 58u64) | ((y as u64) << 29u64) | (x as u64)
}

/// The level stored in a tile id.
pub open spec fn id_level(id: u64) -> u8 {
    (id >> 58u64) as u8
}

/// The row stored in a tile id.
pub open spec fn id_y(id: u64) -> u32 {
    ((id >> 29u64) & 0x1FFF_FFFFu64) as u32
}

/// The column stored in a tile id.
pub open spec fn id_x(id: u64) -> u32 {
    (id & 0x1FFF_FFFFu64) as u32
}

/// Whether level and coordinates can be represented in a tile id.
pub open spec fn representable(level: u8, x: u32, y: u32) -> bool {
    level < 29 && x < 0x2000_0000 && y < 0x2000_0000
}

/// The name of the file in the cache: `level/x/<id as 16 hex digits>.png`.
pub open spec fn tile_file_name(level: u8, x: u32, y: u32) -> Seq<char> {
    decimal_text(level as nat) + seq!['/'] + decimal_text(x as nat) + seq!['/']
        + hex_text(tile_id(level, x, y) as nat, 16) + seq!['.', 'p', 'n', 'g']
}

/// The relative url of a tile in the slippy map convention: `level/x/y.png`.
pub open spec fn tile_partial_url(level: u8, x: u32, y: u32) -> Seq<char> {
    decimal_text(level as nat) + seq!['/'] + decimal_text(x as nat) + seq!['/']
        + decimal_text(y as nat) + seq!['.', 'p', 'n', 'g']
}

/// The tile that a tile id stands for.
pub closed spec fn decoded_tile(id: u64) -> TileSpecification {
    TileSpecification { level: id_level(id), x: id_x(id), y: id_y(id) }
}

/// What the decoded tile holds.
pub proof fn lemma_decoded_tile(id: u64)
    ensures
        decoded_tile(id).spec_level() == id_level(id),
        decoded_tile(id).spec_x() == id_x(id),
        decoded_tile(id).spec_y() == id_y(id),
{
}

/// Appends the file extension of a tile image.
fn push_png_extension(s: &mut String)
    ensures
        final(s)@ == old(s)@ + seq!['.', 'p', 'n', 'g'],
{
    push_char(s, '.');
    push_char(s, 'p');
    push_char(s, 'n');
    push_char(s, 'g');
    assert(final(s)@ =~= old(s)@ + seq!['.', 'p', 'n', 'g']);
}

impl TileSpecification {
    /// The zoom level.
    pub closed spec fn spec_level(&self) -> u8 {
        self.level
    }

    /// The column.
    pub closed spec fn spec_x(&self) -> u32 {
        self.x
    }

    /// The row.
    pub closed spec fn spec_y(&self) -> u32 {
        self.y
    }

    /// The tile id of this tile.
    pub open spec fn id(&self) -> u64 {
        tile_id(self.spec_level(), self.spec_x(), self.spec_y())
    }

    /// Creates a tile specification; level and coordinates must fit into the tile id.
    pub fn new(level: u8, x: u32, y: u32) -> (r: Self)
        requires
            representable(level, x, y),
        ensures
            r.spec_level() == level,
            r.spec_x() == x,
            r.spec_y() == y,
    {
        TileSpecification { level, x, y }
    }

    /// The zoom level.
    pub fn level(&self) -> (r: u8)
        ensures
            r == self.spec_level(),
    {
        self.level
    }

    /// The column.
    pub fn x(&self) -> (r: u32)
        ensures
            r == self.spec_x(),
    {
        self.x
    }

    /// The row.
    pub fn y(&self) -> (r: u32)
        ensures
            r == self.spec_y(),
    {
        self.y
    }

    /// Computes the tile id.
    pub fn to_id(&self) -> (r: u64)
        ensures
            r == self.id(),
    {
        (self.level as u64) << 58u64 | (self.y as u64) << 29u64 | self.x as u64
    }

    /// Decodes a tile id.
    pub fn from_id(id: u64) -> (r: Self)
        ensures
            r == decoded_tile(id),
            r.spec_level() == id_level(id),
            r.spec_x() == id_x(id),
            r.spec_y() == id_y(id),
    {
        let level = (id >> 58u64) as u8;
        let y = ((id >> 29u64) & 0x1FFF_FFFFu64) as u32;
        let x = (id & 0x1FFF_FFFFu64) as u32;
        TileSpecification { level, x, y }
    }

    /// The relative path under which the tile is stored in the cache.
    pub fn filename(&self) -> (r: String)
        ensures
            r@ == tile_file_name(self.spec_level(), self.spec_x(), self.spec_y()),
    {
        let mut s = String::new();
        push_decimal(&mut s, self.level as u64);
        push_char(&mut s, '/');
        push_decimal(&mut s, self.x as u64);
        push_char(&mut s, '/');
        let id = self.to_id();
        push_hex(&mut s, id, 16);
        push_png_extension(&mut s);
        assert(s@ =~= tile_file_name(self.spec_level(), self.spec_x(), self.spec_y()));
        s
    }

    /// The relative path used by tile web services.
    pub fn get_partial_url(&self) -> (r: String)
        ensures
            r@ == tile_partial_url(self.spec_level(), self.spec_x(), self.spec_y()),
    {
        let mut s = String::new();
        push_decimal(&mut s, self.level as u64);
        push_char(&mut s, '/');
        push_decimal(&mut s, self.x as u64);
        push_char(&mut s, '/');
        push_decimal(&mut s, self.y as u64);
        push_png_extension(&mut s);
        assert(s@ =~= tile_partial_url(self.spec_level(), self.spec_x(), self.spec_y()));
        s
    }
}

impl From<u64> for TileSpecification {
    fn from(item: u64) -> (r: Self) {
        Self::from_id(item)
    }
}

impl vstd::std_specs::convert::FromSpecImpl<u64> for TileSpecification {
    open spec fn obeys_from_spec() -> bool {
        true
    }

    open spec fn from_spec(v: u64) -> Self {
        decoded_tile(v)
    }
}

impl From<TileSpecification> for u64 {
    fn from(item: TileSpecification) -> (r: u64) {
        item.to_id()
    }
}

impl vstd::std_specs::convert::FromSpecImpl<TileSpecification> for u64 {
    open spec fn obeys_from_spec() -> bool {
        true
    }

    open spec fn from_spec(v: TileSpecification) -> u64 {
        v.id()
    }
}

/// Decoding a tile id and encoding the result gives back the id, for every 64 bit value.
pub proof fn lemma_id_round_trip(id: u64)
    ensures
        tile_id(id_level(id), id_x(id), id_y(id)) == id,
{
    assert(((((id >> 58u64) as u8) as u64) << 58u64) | (((((id >> 29u64) & 0x1FFF_FFFFu64)
        as u32) as u64) << 29u64) | (((id & 0x1FFF_FFFFu64) as u32) as u64) == id)
        by (bit_vector);
}

/// Decoding any 64 bit value into a tile and encoding that tile gives back the value: the six
/// bits of level, 29 bits of row and 29 bits of column cover the whole id.
pub proof fn lemma_decoded_id(v: u64)
    ensures
        decoded_tile(v).id() == v,
        decoded_tile(v).spec_level() == id_level(v),
        decoded_tile(v).spec_x() == id_x(v),
        decoded_tile(v).spec_y() == id_y(v),
{
    lemma_id_round_trip(v);
}

/// Encoding a representable tile and decoding the id gives back level, column and row.
pub proof fn lemma_tile_round_trip(level: u8, x: u32, y: u32)
    requires
        representable(level, x, y),
    ensures
        id_level(tile_id(level, x, y)) == level,
        id_x(tile_id(level, x, y)) == x,
        id_y(tile_id(level, x, y)) == y,
{
    assert(level < 29 && x < 0x2000_0000 && y < 0x2000_0000 ==> ((((level as u64) << 58u64) | ((
    y as u64) << 29u64) | (x as u64)) >> 58u64) as u8 == level) by (bit_vector);
    assert(level < 29 && x < 0x2000_0000 && y < 0x2000_0000 ==> (((((level as u64) << 58u64) | ((
    y as u64) << 29u64) | (x as u64)) >> 29u64) & 0x1FFF_FFFFu64) as u32 == y) by (bit_vector);
    assert(level < 29 && x < 0x2000_0000 && y < 0x2000_0000 ==> ((((level as u64) << 58u64) | ((
    y as u64) << 29u64) | (x as u64)) & 0x1FFF_FFFFu64) as u32 == x) by (bit_vector);
}


/// A representable tile decodes from its id to itself.
pub proof fn lemma_specification_round_trip(s: TileSpecification)
    requires
        representable(s.spec_level(), s.spec_x(), s.spec_y()),
    ensures
        decoded_tile(s.id()) == s,
{
    lemma_tile_round_trip(s.level, s.x, s.y);
}

/// Where level, column and row sit in the tile id, for every tile whose parts fit their fields:
/// the level in the top six bits, the row in the 29 bits below and the column in the lowest 29
/// bits, whatever the level.
pub proof fn lemma_id_layout(s: TileSpecification)
    requires
        s.spec_level() < 64,
        s.spec_x() < 0x2000_0000,
        s.spec_y() < 0x2000_0000,
    ensures
        s.id() >> 58u64 == s.spec_level() as u64,
        (s.id() >> 29u64) & 0x1FFF_FFFFu64 == s.spec_y() as u64,
        s.id() & 0x1FFF_FFFFu64 == s.spec_x() as u64,
{
    let level = s.level;
    let x = s.x;
    let y = s.y;
    assert(level < 64 && x < 0x2000_0000 && y < 0x2000_0000 ==> ((((level as u64) << 58u64) | ((
    y as u64) << 29u64) | (x as u64)) >> 58u64) == level as u64) by (bit_vector);
    assert(level < 64 && x < 0x2000_0000 && y < 0x2000_0000 ==> (((((level as u64) << 58u64) | ((
    y as u64) << 29u64) | (x as u64)) >> 29u64) & 0x1FFF_FFFFu64) == y as u64) by (bit_vector);
    assert(level < 64 && x < 0x2000_0000 && y < 0x2000_0000 ==> ((((level as u64) << 58u64) | ((
    y as u64) << 29u64) | (x as u64)) & 0x1FFF_FFFFu64) == x as u64) by (bit_vector);
}

/// What decoding reads from a tile id, for every 64 bit value: the level from the top six
/// bits, the row from the 29 bits below and the column from the lowest 29 bits.
pub proof fn lemma_decoded_layout(v: u64)
    ensures
        decoded_tile(v).spec_level() as u64 == v >> 58u64,
        decoded_tile(v).spec_y() as u64 == (v >> 29u64) & 0x1FFF_FFFFu64,
        decoded_tile(v).spec_x() as u64 == v & 0x1FFF_FFFFu64,
        decoded_tile(v).spec_level() < 64,
        decoded_tile(v).spec_x() < 0x2000_0000,
        decoded_tile(v).spec_y() < 0x2000_0000,
{
    assert(((v >> 58u64) as u8) as u64 == v >> 58u64 && (v >> 58u64) < 64) by (bit_vector);
    assert((((v >> 29u64) & 0x1FFF_FFFFu64) as u32) as u64 == (v >> 29u64) & 0x1FFF_FFFFu64
        && ((v >> 29u64) & 0x1FFF_FFFFu64) < 0x2000_0000) by (bit_vector);
    assert(((v & 0x1FFF_FFFFu64) as u32) as u64 == v & 0x1FFF_FFFFu64 && (v & 0x1FFF_FFFFu64)
        < 0x2000_0000) by (bit_vector);
}

/// The names of a tile: the web path is the level, the column and the row as decimal numerals,
/// separated by `/` and followed by `.png`; the cache path has the same first two parts, then
/// the tile id as sixteen lower case hexadecimal digits, and `.png`.
pub proof fn lemma_tile_names(s: TileSpecification)
    ensures
        tile_partial_url(s.spec_level(), s.spec_x(), s.spec_y()) == decimal_text(
            s.spec_level() as nat,
        ) + "/"@ + decimal_text(s.spec_x() as nat) + "/"@ + decimal_text(s.spec_y() as nat)
            + ".png"@,
        tile_file_name(s.spec_level(), s.spec_x(), s.spec_y()) == decimal_text(
            s.spec_level() as nat,
        ) + "/"@ + decimal_text(s.spec_x() as nat) + "/"@ + hex_text(s.id() as nat, 16) + ".png"@,
        hex_text(s.id() as nat, 16).len() == 16,
        forall|i: int| 0 <= i < 16 ==> is_lower_hex_digit(#[trigger] hex_text(s.id() as nat, 16)[i]),
        hex_value(hex_text(s.id() as nat, 16)) == s.id(),
{
    reveal_strlit("/");
    reveal_strlit(".png");
    assert("/"@ =~= seq!['/']);
    assert(".png"@ =~= seq!['.', 'p', 'n', 'g']);
    lemma_pow16_16();
    lemma_hex_text(s.id() as nat, 16);
}
} // verus!
