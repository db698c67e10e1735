//! The outline of a font file: its table directory, and the few counts and
//! offsets in its tables that have to be sound before the file is read.
//!
//! A file is plain where it holds one face that does not vary and none of the
//! tables for bitmaps, colours, Apple layout or PostScript outlines, and where
//! what its character map counts lies inside the map.

use vstd::prelude::*;
use vstd::slice::slice_subrange;

verus! {

/// The longest font file that is read, in bytes.
pub const FILE_LIMIT: u64 = 0x7fff_ffff;

/// The largest number of tables that can be counted up to and one further.
pub const TABLE_LIMIT: u16 = 0xfffe;

/// The tag `ttcf`, with which a collection of faces begins.
pub const COLLECTION: u32 = 0x7474_6366;

/// The tag of the character map, `cmap`.
pub const CHARACTER_MAP: u32 = 0x636d_6170;

/// The tag of the glyph definitions, `GDEF`.
pub const GLYPH_DEFINITIONS: u32 = 0x4744_4546;

/// The tag of the glyph positions, `GPOS`.
pub const GLYPH_POSITIONS: u32 = 0x4750_4f53;

/// The tag of the glyph substitutions, `GSUB`.
pub const GLYPH_SUBSTITUTIONS: u32 = 0x4753_5542;

/// The big-endian number in the two bytes from `at` on.
pub open spec fn number16(data: Seq<u8>, at: int) -> int {
    data[at] * 256 + data[at + 1]
}

/// The big-endian number in the four bytes from `at` on.
pub open spec fn number32(data: Seq<u8>, at: int) -> int {
    number16(data, at) * 65536 + number16(data, at + 2)
}

/// Read two bytes as a number.
fn read16(data: &[u8], at: usize) -> (r: u16)
    requires
        at + 2 <= data@.len(),
    ensures
        r == number16(data@, at as int),
{
    (data[at] as u16) * 256 + data[at + 1] as u16
}

/// Read four bytes as a number.
fn read32(data: &[u8], at: usize) -> (r: u32)
    requires
        at + 4 <= data@.len() <= FILE_LIMIT,
    ensures
        r == number32(data@, at as int),
{
    (read16(data, at) as u32) * 65536 + read16(data, at + 2) as u32
}

/// A tag that a plain file does not have: of a table for variations (`fvar`, `avar`,
/// `gvar`, `HVAR`, `MVAR`, `VVAR`, `CFF2`), for PostScript outlines (`CFF `, `VORG`), for
/// bitmaps and colours (`bdat`, `bloc`, `CBDT`, `CBLC`, `EBDT`, `EBLC`, `sbix`, `COLR`,
/// `CPAL`, `SVG `), for Apple layout (`ankr`, `feat`, `kerx`, `morx`, `trak`) or for
/// formulas (`MATH`).
pub open spec fn tag_is_barred(tag: int) -> bool {
    ||| tag == 0x6676_6172
    ||| tag == 0x6176_6172
    ||| tag == 0x6776_6172
    ||| tag == 0x4856_4152
    ||| tag == 0x4d56_4152
    ||| tag == 0x5656_4152
    ||| tag == 0x4346_4632
    ||| tag == 0x4346_4620
    ||| tag == 0x564f_5247
    ||| tag == 0x6264_6174
    ||| tag == 0x626c_6f63
    ||| tag == 0x4342_4454
    ||| tag == 0x4342_4c43
    ||| tag == 0x4542_4454
    ||| tag == 0x4542_4c43
    ||| tag == 0x7362_6978
    ||| tag == 0x434f_4c52
    ||| tag == 0x4350_414c
    ||| tag == 0x5356_4720
    ||| tag == 0x616e_6b72
    ||| tag == 0x6665_6174
    ||| tag == 0x6b65_7278
    ||| tag == 0x6d6f_7278
    ||| tag == 0x7472_616b
    ||| tag == 0x4d41_5448
}

/// Whether a plain file does not have a table.
fn is_barred(tag: u32) -> (r: bool)
    ensures
        r == tag_is_barred(tag as int),
{
    tag == 0x6676_6172 || tag == 0x6176_6172 || tag == 0x6776_6172 || tag == 0x4856_4152 || tag
        == 0x4d56_4152 || tag == 0x5656_4152 || tag == 0x4346_4632 || tag == 0x4346_4620 || tag
        == 0x564f_5247 || tag == 0x6264_6174 || tag == 0x626c_6f63 || tag == 0x4342_4454 || tag
        == 0x4342_4c43 || tag == 0x4542_4454 || tag == 0x4542_4c43 || tag == 0x7362_6978 || tag
        == 0x434f_4c52 || tag == 0x4350_414c || tag == 0x5356_4720 || tag == 0x616e_6b72 || tag
        == 0x6665_6174 || tag == 0x6b65_7278 || tag == 0x6d6f_7278 || tag == 0x7472_616b || tag
        == 0x4d41_5448
}

/// In a character map, what the subtable at `at` counts lies inside the map. The formats
/// with a wide count are the trimmed array, the two with groups, and the variation
/// sequences.
pub open spec fn submap_is_plain(map: Seq<u8>, at: int) -> bool {
    at + 2 <= map.len() ==> {
        let format = number16(map, at);
        &&& format == 10 && at + 20 <= map.len() ==> at + 20 + 2 * number32(map, at + 16)
            <= map.len()
        &&& (format == 12 || format == 13) && at + 16 <= map.len() ==> at + 16 + 12 * number32(
            map,
            at + 12,
        ) <= map.len()
        &&& format == 14 && at + 10 <= map.len() ==> at + 10 + 11 * number32(map, at + 6)
            <= map.len()
    }
}

/// What every subtable of a character map counts lies inside the map.
pub open spec fn map_is_plain(map: Seq<u8>) -> bool {
    map.len() >= 4 && 4 + 8 * number16(map, 2) <= map.len() ==> forall|i: int|
        0 <= i < number16(map, 2) ==> submap_is_plain(map, #[trigger] number32(map, 8 + 8 * i))
}

/// A table of glyph definitions points to no variations.
pub open spec fn definitions_are_plain(table: Seq<u8>) -> bool {
    table.len() >= 18 && number32(table, 0) == 0x0001_0003 ==> number32(table, 14) == 0
}

/// A table of glyph positions or substitutions points to no variations.
pub open spec fn layout_is_plain(table: Seq<u8>) -> bool {
    table.len() >= 14 && number16(table, 2) >= 1 ==> number32(table, 10) == 0
}

/// A table of a plain file, by its tag and its bytes.
pub open spec fn table_is_plain(tag: int, table: Seq<u8>) -> bool {
    &&& tag == CHARACTER_MAP ==> map_is_plain(table)
    &&& tag == GLYPH_DEFINITIONS ==> definitions_are_plain(table)
    &&& tag == GLYPH_POSITIONS || tag == GLYPH_SUBSTITUTIONS ==> layout_is_plain(table)
}

/// An entry of the table directory, at `at`, is one of a plain file. One whose table
/// would lie outside the file has no table.
pub open spec fn entry_is_plain(data: Seq<u8>, at: int) -> bool {
    let tag = number32(data, at);
    let start = number32(data, at + 8);
    let end = start + number32(data, at + 12);
    &&& !tag_is_barred(tag)
    &&& end <= data.len() ==> table_is_plain(tag, data.subrange(start, end))
}

/// A font file is plain.
pub open spec fn file_is_plain(data: Seq<u8>) -> bool {
    &&& data.len() <= FILE_LIMIT
    &&& data.len() >= 4 ==> number32(data, 0) != COLLECTION
    &&& data.len() >= 6 && 12 + 16 * number16(data, 4) <= data.len() ==> {
        &&& number16(data, 4) <= TABLE_LIMIT
        &&& forall|i: int|
            0 <= i < number16(data, 4) ==> #[trigger] entry_is_plain(data, 12 + 16 * i)
    }
}

/// Whether what a subtable of a character map counts lies inside the map.
fn plain_submap(map: &[u8], at: usize) -> (r: bool)
    requires
        map@.len() <= FILE_LIMIT,
    ensures
        r == submap_is_plain(map@, at as int),
{
    let n: usize = map.len();
    if n < 2 || at > n - 2 {
        return true;
    }
    let format = read16(map, at);
    if format == 10 {
        n - at < 20 || 2 * read32(map, at + 16) as u64 <= (n - at - 20) as u64
    } else if format == 12 || format == 13 {
        n - at < 16 || 12 * read32(map, at + 12) as u64 <= (n - at - 16) as u64
    } else if format == 14 {
        n - at < 10 || 11 * read32(map, at + 6) as u64 <= (n - at - 10) as u64
    } else {
        true
    }
}

/// Whether what every subtable of a character map counts lies inside the map.
fn plain_map(map: &[u8]) -> (r: bool)
    requires
        map@.len() <= FILE_LIMIT,
    ensures
        r == map_is_plain(map@),
{
    if map.len() < 4 {
        return true;
    }
    let n: usize = read16(map, 2) as usize;
    if map.len() < 4 + 8 * n {
        return true;
    }
    let mut i: usize = 0;
    while i < n
        invariant
            n == number16(map@, 2),
            4 + 8 * n <= map@.len() <= FILE_LIMIT,
            n <= 0xffff,
            i <= n,
            forall|j: int|
                0 <= j < i ==> submap_is_plain(map@, #[trigger] number32(map@, 8 + 8 * j)),
        decreases n - i,
    {
        let at: u32 = read32(map, 8 + 8 * i);
        if !plain_submap(map, at as usize) {
            assert(!submap_is_plain(map@, number32(map@, 8 + 8 * (i as int))));
            return false;
        }
        i += 1;
    }
    true
}

/// Whether a table is one of a plain file.
fn plain_table(tag: u32, table: &[u8]) -> (r: bool)
    requires
        table@.len() <= FILE_LIMIT,
    ensures
        r == table_is_plain(tag as int, table@),
{
    if tag == CHARACTER_MAP {
        plain_map(table)
    } else if tag == GLYPH_DEFINITIONS {
        table.len() < 18 || read32(table, 0) != 0x0001_0003 || read32(table, 14) == 0
    } else if tag == GLYPH_POSITIONS || tag == GLYPH_SUBSTITUTIONS {
        table.len() < 14 || read16(table, 2) < 1 || read32(table, 10) == 0
    } else {
        true
    }
}

/// Whether an entry of the table directory is one of a plain file.
fn plain_entry(data: &[u8], at: usize) -> (r: bool)
    requires
        data@.len() <= FILE_LIMIT,
        at + 16 <= data@.len(),
    ensures
        r == entry_is_plain(data@, at as int),
{
    let tag: u32 = read32(data, at);
    let start: u64 = read32(data, at + 8) as u64;
    let end: u64 = start + read32(data, at + 12) as u64;
    if is_barred(tag) {
        false
    } else if end <= data.len() as u64 {
        plain_table(tag, slice_subrange(data, start as usize, end as usize))
    } else {
        true
    }
}

/// Whether a font file is plain.
pub fn is_plain_file(data: &[u8]) -> (r: bool)
    ensures
        r == file_is_plain(data@),
{
    if data.len() as u64 > FILE_LIMIT {
        return false;
    }
    if data.len() >= 4 && read32(data, 0) == COLLECTION {
        return false;
    }
    if data.len() < 6 {
        return true;
    }
    let n: usize = read16(data, 4) as usize;
    if data.len() < 12 + 16 * n {
        return true;
    }
    if n > TABLE_LIMIT as usize {
        return false;
    }
    let mut i: usize = 0;
    while i < n
        invariant
            n == number16(data@, 4),
            12 + 16 * n <= data@.len() <= FILE_LIMIT,
            n <= 0xffff,
            i <= n,
            forall|j: int| 0 <= j < i ==> #[trigger] entry_is_plain(data@, 12 + 16 * j),
        decreases n - i,
    {
        if !plain_entry(data, 12 + 16 * i) {
            assert(!entry_is_plain(data@, 12 + 16 * (i as int)));
            return false;
        }
        i += 1;
    }
    true
}

} // verus!
