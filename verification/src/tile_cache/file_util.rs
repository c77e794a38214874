//! The computations behind the file handling of the cache: the disc space a file occupies, the
//! byte layout of the stored usage list and the names of the files in the cache directory.

use crate::tile_cache::text::{hex_number, hex_text, parse_hex_u64, push_char, push_hex};
use vstd::prelude::*;

verus! {

/// 4K block size for files.
pub const BLOCK_SIZE: u64 = 4096;

/// The disc space of a file: its size rounded up to whole blocks.
pub open spec fn final_consumption(raw_size: nat) -> nat {
    ((raw_size + 4095) / 4096) * 4096
}

/// The disc space a file of the given size occupies, in whole blocks.
pub fn round_to_final_consumption(raw_size: u64) -> (r: u64)
    requires
        raw_size <= u64::MAX - 4095,
    ensures
        r == final_consumption(raw_size as nat),
{
    let blocks = raw_size / BLOCK_SIZE + if raw_size % BLOCK_SIZE == 0 {
        0
    } else {
        1
    };
    assert(blocks == (raw_size + 4095) / 4096) by (nonlinear_arith)
        requires
            blocks == raw_size / 4096 + if raw_size % 4096 == 0 {
                0int
            } else {
                1int
            },
    ;
    assert(blocks * 4096 <= u64::MAX) by (nonlinear_arith)
        requires
            blocks == (raw_size + 4095) / 4096,
            raw_size <= u64::MAX - 4095,
    ;
    blocks * BLOCK_SIZE
}

/// The disc space of a file is whole blocks, at least its size and less than one block more.
pub proof fn lemma_final_consumption(raw_size: nat)
    ensures
        final_consumption(raw_size) % 4096 == 0,
        raw_size <= final_consumption(raw_size) < raw_size + 4096,
{
    assert(((raw_size + 4095) / 4096) * 4096 % 4096 == 0) by (nonlinear_arith);
    assert(raw_size <= ((raw_size + 4095) / 4096) * 4096 < raw_size + 4096) by (nonlinear_arith);
}

/// The byte `j` (0 the most significant) of the big endian representation of `x`.
pub open spec fn be_byte(x: u64, j: int) -> u8 {
    if j == 0 {
        (x >> 56u64) as u8
    } else if j == 1 {
        (x >> 48u64) as u8
    } else if j == 2 {
        (x >> 40u64) as u8
    } else if j == 3 {
        (x >> 32u64) as u8
    } else if j == 4 {
        (x >> 24u64) as u8
    } else if j == 5 {
        (x >> 16u64) as u8
    } else if j == 6 {
        (x >> 8u64) as u8
    } else {
        x as u8
    }
}

/// The big endian value of eight bytes.
pub open spec fn be_value(b: Seq<u8>) -> u64 {
    ((b[0] as u64) << 56u64) | ((b[1] as u64) << 48u64) | ((b[2] as u64) << 40u64) | ((
    b[3] as u64) << 32u64) | ((b[4] as u64) << 24u64) | ((b[5] as u64) << 16u64) | ((b[6] as u64)
        << 8u64) | (b[7] as u64)
}

/// The big endian bytes of a sequence of 64 bit values, one after the other.
pub open spec fn bytes_of(v: Seq<u64>) -> Seq<u8> {
    Seq::new(8 * v.len(), |k: int| be_byte(v[k / 8], k % 8))
}

/// The 64 bit values whose big endian bytes a byte sequence holds, eight bytes each.
pub open spec fn words_of(b: Seq<u8>) -> Seq<u64> {
    Seq::new(b.len() / 8, |i: int| be_value(b.subrange(8 * i, 8 * i + 8)))
}

proof fn lemma_div_mod_8(i: int, j: int)
    requires
        0 <= i,
        0 <= j < 8,
    ensures
        (8 * i + j) / 8 == i,
        (8 * i + j) % 8 == j,
{
    assert((8 * i + j) / 8 == i) by (nonlinear_arith)
        requires
            0 <= i,
            0 <= j < 8,
    ;
    assert((8 * i + j) % 8 == j) by (nonlinear_arith)
        requires
            0 <= i,
            0 <= j < 8,
    ;
}

/// Decoding the bytes of a value gives back the value.
proof fn lemma_be_value_of_bytes(x: u64)
    ensures
        be_value(Seq::new(8, |j: int| be_byte(x, j))) == x,
{
    let b = Seq::new(8, |j: int| be_byte(x, j));
    assert(b[0] == (x >> 56u64) as u8);
    assert(b[1] == (x >> 48u64) as u8);
    assert(b[2] == (x >> 40u64) as u8);
    assert(b[3] == (x >> 32u64) as u8);
    assert(b[4] == (x >> 24u64) as u8);
    assert(b[5] == (x >> 16u64) as u8);
    assert(b[6] == (x >> 8u64) as u8);
    assert(b[7] == x as u8);
    assert(((((x >> 56u64) as u8) as u64) << 56u64) | ((((x >> 48u64) as u8) as u64) << 48u64)
        | ((((x >> 40u64) as u8) as u64) << 40u64) | ((((x >> 32u64) as u8) as u64) << 32u64) | ((((
    x >> 24u64) as u8) as u64) << 24u64) | ((((x >> 16u64) as u8) as u64) << 16u64) | ((((x
        >> 8u64) as u8) as u64) << 8u64) | ((x as u8) as u64) == x) by (bit_vector);
}

/// The bytes of a decoded value are the bytes it was decoded from.
proof fn lemma_bytes_of_be_value(b: Seq<u8>, j: int)
    requires
        b.len() == 8,
        0 <= j < 8,
    ensures
        be_byte(be_value(b), j) == b[j],
{
    let (b0, b1, b2, b3, b4, b5, b6, b7) = (b[0], b[1], b[2], b[3], b[4], b[5], b[6], b[7]);
    let v = be_value(b);
    assert(v == ((b0 as u64) << 56u64) | ((b1 as u64) << 48u64) | ((b2 as u64) << 40u64) | ((
    b3 as u64) << 32u64) | ((b4 as u64) << 24u64) | ((b5 as u64) << 16u64) | ((b6 as u64)
        << 8u64) | (b7 as u64));
    assert(v == ((b0 as u64) << 56u64) | ((b1 as u64) << 48u64) | ((b2 as u64) << 40u64) | ((
    b3 as u64) << 32u64) | ((b4 as u64) << 24u64) | ((b5 as u64) << 16u64) | ((b6 as u64)
        << 8u64) | (b7 as u64) ==> (v >> 56u64) as u8 == b0 && (v >> 48u64) as u8 == b1 && (v
        >> 40u64) as u8 == b2 && (v >> 32u64) as u8 == b3 && (v >> 24u64) as u8 == b4 && (v
        >> 16u64) as u8 == b5 && (v >> 8u64) as u8 == b6 && v as u8 == b7) by (bit_vector);
}

/// Decoding the stored bytes of a sequence of values gives back the values.
pub proof fn lemma_words_of_bytes_of(v: Seq<u64>)
    ensures
        words_of(bytes_of(v)) == v,
{
    let b = bytes_of(v);
    assert((8 * v.len()) / 8 == v.len()) by (nonlinear_arith);
    assert forall|i: int| 0 <= i < v.len() implies #[trigger] words_of(b)[i] == v[i] by {
        let chunk = b.subrange(8 * i, 8 * i + 8);
        assert(8 * i + 8 <= 8 * v.len()) by (nonlinear_arith)
            requires
                i < v.len(),
        ;
        assert forall|j: int| 0 <= j < 8 implies #[trigger] chunk[j] == be_byte(v[i], j) by {
            lemma_div_mod_8(i, j);
        }
        assert(chunk =~= Seq::new(8, |j: int| be_byte(v[i], j)));
        lemma_be_value_of_bytes(v[i]);
    }
    assert(words_of(b) =~= v);
}

/// Storing the values that a byte sequence of whole words holds gives back the bytes.
pub proof fn lemma_bytes_of_words_of(b: Seq<u8>)
    requires
        b.len() % 8 == 0,
    ensures
        bytes_of(words_of(b)) == b,
{
    let w = words_of(b);
    assert(8 * (b.len() / 8) == b.len()) by (nonlinear_arith)
        requires
            b.len() % 8 == 0,
    ;
    assert forall|k: int| 0 <= k < b.len() implies #[trigger] bytes_of(w)[k] == b[k] by {
        let i = k / 8;
        let j = k % 8;
        assert(k == 8 * i + j && 0 <= j < 8 && 0 <= i) by (nonlinear_arith)
            requires
                0 <= k,
                i == k / 8,
                j == k % 8,
        ;
        assert(8 * i + 8 <= b.len()) by (nonlinear_arith)
            requires
                k == 8 * i + j,
                0 <= j < 8,
                k < b.len(),
                b.len() % 8 == 0,
        ;
        let chunk = b.subrange(8 * i, 8 * i + 8);
        lemma_bytes_of_be_value(chunk, j);
    }
    assert(bytes_of(w) =~= b);
}

/// Converts bytes into 64 bit values, eight big endian bytes each.
pub fn convert_to_u64(input: &[u8]) -> (r: Vec<u64>)
    requires
        input@.len() % 8 == 0,
    ensures
        r@ == words_of(input@),
{
    let n = input.len();
    let final_length = n / 8;
    let mut result: Vec<u64> = Vec::with_capacity(final_length);
    let mut i: usize = 0;
    while i < final_length
        invariant
            final_length == input@.len() / 8,
            n == input@.len(),
            0 <= i <= final_length,
            result@.len() == i,
            forall|t: int| 0 <= t < i ==> #[trigger] result@[t] == words_of(input@)[t],
        decreases final_length - i,
    {
        assert(8 * i + 8 <= input@.len()) by (nonlinear_arith)
            requires
                i < final_length,
                final_length == input@.len() / 8,
        ;
        assert(8 * i + 8 <= n);
        let base = 8 * i;
        let value = (input[base] as u64) << 56u64 | (input[base + 1] as u64) << 48u64 | (input[base
            + 2] as u64) << 40u64 | (input[base + 3] as u64) << 32u64 | (input[base + 4] as u64)
            << 24u64 | (input[base + 5] as u64) << 16u64 | (input[base + 6] as u64) << 8u64
            | input[base + 7] as u64;
        assert(value == be_value(input@.subrange(8 * i, 8 * i + 8)));
        result.push(value);
        i = i + 1;
    }
    assert(result@ =~= words_of(input@));
    result
}

/// Converts 64 bit values into their big endian bytes, one after the other.
pub fn convert_to_u8(input: &[u64]) -> (r: Vec<u8>)
    requires
        input@.len() * 8 <= usize::MAX,
    ensures
        r@ == bytes_of(input@),
{
    let mut result: Vec<u8> = Vec::new();
    let mut i: usize = 0;
    while i < input.len()
        invariant
            0 <= i <= input@.len(),
            input@.len() * 8 <= usize::MAX,
            result@.len() == 8 * i,
            forall|k: int| 0 <= k < 8 * i ==> #[trigger] result@[k] == bytes_of(input@)[k],
        decreases input@.len() - i,
    {
        let x = input[i];
        let ghost start = result@.len();
        result.push((x >> 56u64) as u8);
        result.push((x >> 48u64) as u8);
        result.push((x >> 40u64) as u8);
        result.push((x >> 32u64) as u8);
        result.push((x >> 24u64) as u8);
        result.push((x >> 16u64) as u8);
        result.push((x >> 8u64) as u8);
        result.push(x as u8);
        proof {
            assert forall|k: int| 0 <= k < 8 * (i + 1) implies #[trigger] result@[k] == bytes_of(
                input@,
            )[k] by {
                if k >= 8 * i {
                    lemma_div_mod_8(i as int, k - 8 * i);
                }
            }
        }
        i = i + 1;
    }
    assert(result@ =~= bytes_of(input@));
    result
}

/// An entry for a tile consisting of the id and the disc usage.
#[derive(Debug, Clone, Copy, PartialEq, Eq, Structural)]
pub struct TileData {
    /// The id of the tile.
    pub tile_id: u64,
    /// The disc space usage of the tile.
    pub size_on_disc: u64,
}


/// The position of the last dot in a file name, or -1.
pub open spec fn last_dot(name: Seq<char>) -> int
    decreases name.len(),
{
    if name.len() == 0 {
        -1
    } else if name.last() == '.' {
        name.len() - 1
    } else {
        last_dot(name.drop_last())
    }
}

/// Whether the file name is split into stem and extension: it has a dot after its first
/// character and is not `..`.
pub open spec fn has_extension(name: Seq<char>) -> bool {
    name != seq!['.', '.'] && last_dot(name) > 0
}

/// The extension of a file name as `Path::extension` gives it: what follows the last dot.
pub open spec fn file_extension(name: Seq<char>) -> Option<Seq<char>> {
    if has_extension(name) {
        Some(name.subrange(last_dot(name) + 1, name.len() as int))
    } else {
        None
    }
}

/// The stem of a file name as `Path::file_stem` gives it: what precedes the last dot.
pub open spec fn file_stem(name: Seq<char>) -> Seq<char> {
    if has_extension(name) {
        name.subrange(0, last_dot(name))
    } else {
        name
    }
}

/// The tile id that a cached tile image is stored under: the file name must have the extension
/// `png` and a stem of hexadecimal digits.
pub open spec fn png_file_tile_id(name: Seq<char>) -> Option<u64> {
    if file_extension(name) == Some(seq!['p', 'n', 'g']) {
        hex_number(file_stem(name))
    } else {
        None
    }
}

proof fn lemma_last_dot_bounds(name: Seq<char>)
    ensures
        -1 <= last_dot(name) < name.len(),
        last_dot(name) >= 0 ==> name[last_dot(name)] == '.',
        forall|t: int| last_dot(name) < t < name.len() ==> name[t] != '.',
    decreases name.len(),
{
    if name.len() > 0 && name.last() != '.' {
        let d = name.drop_last();
        lemma_last_dot_bounds(d);
        assert forall|t: int| last_dot(name) < t < name.len() implies name[t] != '.' by {
            if t < d.len() {
                assert(d[t] == name[t]);
            }
        }
    }
}

/// Finds the position of the last dot of a file name.
fn find_last_dot(name: &str) -> (r: Option<usize>)
    ensures
        r is Some == (last_dot(name@) >= 0),
        r matches Some(d) ==> d as int == last_dot(name@),
{
    let len = name.unicode_len();
    let mut i: usize = len;
    proof {
        lemma_last_dot_bounds(name@);
    }
    while i > 0
        invariant
            0 <= i <= len,
            len == name@.len(),
            forall|t: int| i <= t < len ==> name@[t] != '.',
            last_dot(name@) < i,
            -1 <= last_dot(name@) < len,
            last_dot(name@) >= 0 ==> name@[last_dot(name@)] == '.',
            forall|t: int| last_dot(name@) < t < len ==> name@[t] != '.',
        decreases i,
    {
        if name.get_char(i - 1) == '.' {
            return Some(i - 1);
        }
        i = i - 1;
    }
    None
}

/// Whether a file name is the two dots of the parent directory.
fn is_parent_name(name: &str) -> (r: bool)
    ensures
        r == (name@ == seq!['.', '.']),
{
    if name.unicode_len() == 2 && name.get_char(0) == '.' && name.get_char(1) == '.' {
        assert(name@ =~= seq!['.', '.']);
        true
    } else {
        false
    }
}

/// Whether the extension of a file name is the three given characters.
fn has_extension_of(name: &str, a: char, b: char, c: char) -> (r: bool)
    ensures
        r == (file_extension(name@) == Some(seq![a, b, c])),
{
    let found = find_last_dot(name);
    proof {
        lemma_last_dot_bounds(name@);
    }
    let d = match found {
        Some(d) => d,
        None => {
            return false;
        },
    };
    if is_parent_name(name) || d == 0 {
        return false;
    }
    let len = name.unicode_len();
    let ghost dot = d as int;
    let ghost ext = name@.subrange(dot + 1, len as int);
    if len - d == 4 && name.get_char(d + 1) == a && name.get_char(d + 2) == b && name.get_char(d + 3)
        == c {
        assert(ext =~= seq![a, b, c]);
        true
    } else {
        assert(ext.len() != 3 || ext[0] != a || ext[1] != b || ext[2] != c);
        false
    }
}

/// The tile id of a cached tile image from its file name, as the scan of the cache directory
/// reads it: `None` for any other file.
pub fn png_tile_id(file_name: &str) -> (r: Option<u64>)
    ensures
        r == png_file_tile_id(file_name@),
{
    if !has_extension_of(file_name, 'p', 'n', 'g') {
        return None;
    }
    let found = find_last_dot(file_name);
    proof {
        lemma_last_dot_bounds(file_name@);
        assert(has_extension(file_name@));
    }
    let dot = found.unwrap();
    assert(dot as int == last_dot(file_name@));
    let stem = file_name.substring_char(0, dot);
    assert(stem@ =~= file_name@.subrange(0, dot as int));
    assert(stem@ =~= file_stem(file_name@));
    parse_hex_u64(stem)
}

/// Whether a file is a transient file of an interrupted save: its extension is `tmp`.
pub fn is_temp_file(file_name: &str) -> (r: bool)
    ensures
        r == (file_extension(file_name@) == Some(seq!['t', 'm', 'p'])),
{
    has_extension_of(file_name, 't', 'm', 'p')
}

/// The number that names a transient file: the process id above the counter value.
pub open spec fn temp_file_number(process_id: u32, counter: u32) -> u64 {
    ((process_id as u64) << 32u64) | (counter as u64)
}

/// The name of a transient file: the number as 16 hexadecimal digits and the extension `tmp`.
pub fn temp_file_name(process_id: u32, counter: u32) -> (r: String)
    ensures
        r@ == hex_text(temp_file_number(process_id, counter) as nat, 16) + seq![
            '.',
            't',
            'm',
            'p',
        ],
{
    let combined = (process_id as u64) << 32u64 | counter as u64;
    let mut s = String::new();
    push_hex(&mut s, combined, 16);
    push_char(&mut s, '.');
    push_char(&mut s, 't');
    push_char(&mut s, 'm');
    push_char(&mut s, 'p');
    assert(s@ =~= hex_text(temp_file_number(process_id, counter) as nat, 16) + seq![
        '.',
        't',
        'm',
        'p',
    ]);
    s
}

/// Two hundred fifty-six to the power of `k`.
pub open spec fn pow256(k: nat) -> nat
    decreases k,
{
    if k == 0 {
        1
    } else {
        256 * pow256((k - 1) as nat)
    }
}

/// The stored bytes are big endian: byte `j` of the eight bytes of a value is its digit of
/// weight `256^(7 - j)` in base 256, the most significant byte first.
pub proof fn lemma_big_endian(v: Seq<u64>, i: int, j: int)
    requires
        0 <= i < v.len(),
        0 <= j < 8,
    ensures
        bytes_of(v).len() == 8 * v.len(),
        bytes_of(v)[8 * i + j] as nat == (v[i] as nat / pow256((7 - j) as nat)) % 256,
{
    lemma_div_mod_8(i, j);
    assert(8 * i + j < 8 * v.len());
    let x = v[i];
    assert(bytes_of(v)[8 * i + j] == be_byte(x, j));
    assert(pow256(0) == 1);
    assert(pow256(1) == 0x100);
    assert(pow256(2) == 0x1_0000);
    assert(pow256(3) == 0x100_0000);
    assert(pow256(4) == 0x1_0000_0000);
    assert(pow256(5) == 0x100_0000_0000);
    assert(pow256(6) == 0x1_0000_0000_0000);
    assert(pow256(7) == 0x100_0000_0000_0000);
    if j == 0 {
        assert(((x >> 56u64) as u8) as u64 == (x / 0x0100_0000_0000_0000u64) % 256) by (bit_vector);
        assert(be_byte(x, 0) as nat == (x as nat / pow256(7)) % 256);
    } else if j == 1 {
        assert(((x >> 48u64) as u8) as u64 == (x / 0x0001_0000_0000_0000u64) % 256) by (bit_vector);
        assert(be_byte(x, 1) as nat == (x as nat / pow256(6)) % 256);
    } else if j == 2 {
        assert(((x >> 40u64) as u8) as u64 == (x / 0x0000_0100_0000_0000u64) % 256) by (bit_vector);
        assert(be_byte(x, 2) as nat == (x as nat / pow256(5)) % 256);
    } else if j == 3 {
        assert(((x >> 32u64) as u8) as u64 == (x / 0x0000_0001_0000_0000u64) % 256) by (bit_vector);
        assert(be_byte(x, 3) as nat == (x as nat / pow256(4)) % 256);
    } else if j == 4 {
        assert(((x >> 24u64) as u8) as u64 == (x / 0x0000_0000_0100_0000u64) % 256) by (bit_vector);
        assert(be_byte(x, 4) as nat == (x as nat / pow256(3)) % 256);
    } else if j == 5 {
        assert(((x >> 16u64) as u8) as u64 == (x / 0x0000_0000_0001_0000u64) % 256) by (bit_vector);
        assert(be_byte(x, 5) as nat == (x as nat / pow256(2)) % 256);
    } else if j == 6 {
        assert(((x >> 8u64) as u8) as u64 == (x / 0x0000_0000_0000_0100u64) % 256) by (bit_vector);
        assert(be_byte(x, 6) as nat == (x as nat / pow256(1)) % 256);
    } else {
        assert((x as u8) as u64 == x % 256) by (bit_vector);
        assert(be_byte(x, 7) as nat == (x as nat / pow256(0)) % 256);
    }
}
} // verus!
