//! Which fonts and which texts can be shaped: what the shaper cannot do with a font or a text is
//! read off their bytes and characters beforehand.

use vstd::prelude::*;

use crate::chars::chars_of;
use crate::lookups::{font_joins, font_moves, joins, moves};

verus! {

/// The first four bytes of a collection of fonts, as a number: `ttcf`.
pub const COLLECTION: u32 = 0x7474_6366;

/// The tag of the table of a font that varies along axes: `fvar`.
pub const AXES: u32 = 0x6676_6172;

/// The tag of the table with the measures of a font: `OS/2`.
pub const MEASURES: u32 = 0x4f53_2f32;

/// The tag of the table of glyph substitutions: `GSUB`.
pub const SUBSTITUTIONS: u32 = 0x4753_5542;

/// The tag of the table of glyph positions: `GPOS`.
pub const POSITIONS: u32 = 0x4750_4f53;

/// The tag of the table of glyph classes: `GDEF`.
pub const CLASSES: u32 = 0x4744_4546;

/// The tag of the table of kerning pairs: `kern`.
pub const KERNING: u32 = 0x6b65_726e;

/// The tag of the table that maps characters to glyphs: `cmap`.
pub const CHARACTERS: u32 = 0x636d_6170;

/// The tag of the table that heads a font: `head`.
pub const HEAD: u32 = 0x6865_6164;

/// The tag of the table that counts the glyphs of a font: `maxp`.
pub const COUNTS: u32 = 0x6d61_7870;

/// The tag of the table that says where each outline begins: `loca`.
pub const LOCATIONS: u32 = 0x6c6f_6361;

/// The tag of the table of outlines: `glyf`.
pub const OUTLINES: u32 = 0x676c_7966;

/// Two bytes as a number, the first the higher; zero where they are not there.
pub open spec fn word_at(b: Seq<u8>, i: int) -> int {
    if 0 <= i && i + 1 < b.len() {
        b[i] * 0x100 + b[i + 1]
    } else {
        0
    }
}

/// Four bytes as a number, the first the highest.
pub open spec fn long_at(b: Seq<u8>, i: int) -> int {
    word_at(b, i) * 0x1_0000 + word_at(b, i + 2)
}

pub(crate) fn word(b: &Vec<u8>, i: u64) -> (r: u64)
    ensures
        r == word_at(b@, i as int),
        r <= 0xffff,
{
    let n: u64 = b.len() as u64;
    if n >= 2 && i <= n - 2 {
        b[i as usize] as u64 * 0x100 + b[i as usize + 1] as u64
    } else {
        0
    }
}

pub(crate) fn long(b: &Vec<u8>, i: u64) -> (r: u64)
    requires
        i < 0x1_0000_0000_0000,
    ensures
        r == long_at(b@, i as int),
        r <= 0xffff_ffff,
{
    word(b, i) * 0x1_0000 + word(b, i + 2)
}

/// The number of tables of a font.
pub open spec fn table_count(b: Seq<u8>) -> int {
    word_at(b, 4)
}

/// Where the entry of a table stands in the directory of a font.
pub open spec fn entry_at(k: int) -> int {
    12 + 16 * k
}

/// The tag of a table.
pub open spec fn table_tag(b: Seq<u8>, k: int) -> int {
    long_at(b, entry_at(k))
}

/// Where a table begins.
pub open spec fn table_at(b: Seq<u8>, k: int) -> int {
    long_at(b, entry_at(k) + 8)
}

/// Where a table ends.
pub open spec fn table_end(b: Seq<u8>, k: int) -> int {
    table_at(b, k) + long_at(b, entry_at(k) + 12)
}

/// Whether a table is one whose numbers are not bounded here: axes of variation and what varies along
/// them, state machines, pictures, colours, and outlines that are programs. They are `CBDT`, `CBLC`,
/// `CFF `, `CFF2`, `COLR`, `CPAL`, `EBDT`, `EBLC`, `HVAR`, `MATH`, `MVAR`, `STAT`, `SVG `, `VVAR`,
/// `ankr`, `avar`, `bdat`, `bloc`, `feat`, `fvar`, `gvar`, `kerx`, `morx`, `sbix` and `trak`.
pub open spec fn unbounded_tag(tag: int) -> bool {
    ||| tag == 0x4342_4454
    ||| tag == 0x4342_4c43
    ||| tag == 0x4346_4620
    ||| tag == 0x4346_4632
    ||| tag == 0x434f_4c52
    ||| tag == 0x4350_414c
    ||| tag == 0x4542_4454
    ||| tag == 0x4542_4c43
    ||| tag == 0x4856_4152
    ||| tag == 0x4d41_5448
    ||| tag == 0x4d56_4152
    ||| tag == 0x5354_4154
    ||| tag == 0x5356_4720
    ||| tag == 0x5656_4152
    ||| tag == 0x616e_6b72
    ||| tag == 0x6176_6172
    ||| tag == 0x6264_6174
    ||| tag == 0x626c_6f63
    ||| tag == 0x6665_6174
    ||| tag == AXES
    ||| tag == 0x6776_6172
    ||| tag == 0x6b65_7278
    ||| tag == 0x6d6f_7278
    ||| tag == 0x7362_6978
    ||| tag == 0x7472_616b
}

fn is_unbounded(tag: u64) -> (r: bool)
    ensures
        r == unbounded_tag(tag as int),
{
    tag == 0x4342_4454 || tag == 0x4342_4c43 || tag == 0x4346_4620 || tag == 0x4346_4632 || tag
        == 0x434f_4c52 || tag == 0x4350_414c || tag == 0x4542_4454 || tag == 0x4542_4c43 || tag
        == 0x4856_4152 || tag == 0x4d41_5448 || tag == 0x4d56_4152 || tag == 0x5354_4154 || tag
        == 0x5356_4720 || tag == 0x5656_4152 || tag == 0x616e_6b72 || tag == 0x6176_6172 || tag
        == 0x6264_6174 || tag == 0x626c_6f63 || tag == 0x6665_6174 || tag == AXES as u64 || tag
        == 0x6776_6172 || tag == 0x6b65_7278 || tag == 0x6d6f_7278 || tag == 0x7362_6978 || tag
        == 0x7472_616b
}

/// The most bytes of a table of substitutions, positions or classes: no list of two-byte numbers in it
/// then has as many members as a two-byte number can count, and a walk over it can count one past
/// its end.
pub const MOST_LAYOUT: u64 = 0x1_fffd;

/// The most members of a list that a four-byte number counts: their bytes can then be counted in four
/// bytes too.
pub const MOST_MEMBERS: u64 = 0x1000_0000;

/// Whether a map from characters to glyphs can be read: the long lists that it may hold are not longer
/// than they can be counted, and it is not the one that tells variants of a character apart.
pub open spec fn map_sound(b: Seq<u8>, at: int) -> bool {
    let format = word_at(b, at);
    &&& format != 14
    &&& format == 10 ==> long_at(b, at + 16) <= MOST_MEMBERS
    &&& format == 12 || format == 13 ==> long_at(b, at + 12) <= MOST_MEMBERS
}

/// Where a map from characters to glyphs begins.
pub open spec fn map_at(b: Seq<u8>, at: int, m: int) -> int {
    at + long_at(b, at + 8 + 8 * m)
}

/// Whether every map from characters to glyphs can be read.
pub open spec fn maps_sound(b: Seq<u8>, at: int) -> bool {
    forall|m: int| 0 <= m < word_at(b, at + 2) ==> map_sound(b, #[trigger] map_at(b, at, m))
}

/// Whether a table can be read: it is bounded; the depth that it holds for one maker, which is stored
/// without its sign, can be negated; a table of substitutions, positions or classes is short enough
/// and of a version that does not vary; kerning is of the plain version; and characters can be mapped.
pub open spec fn table_sound(b: Seq<u8>, k: int) -> bool {
    let tag = table_tag(b, k);
    let at = table_at(b, k);
    &&& !unbounded_tag(tag)
    &&& tag == MEASURES ==> word_at(b, at + 76) != 0x8000
    &&& tag == SUBSTITUTIONS || tag == POSITIONS || tag == CLASSES ==> table_end(b, k) - at
        <= MOST_LAYOUT
    &&& tag == SUBSTITUTIONS || tag == POSITIONS ==> word_at(b, at + 2) == 0
    &&& tag == CLASSES ==> word_at(b, at + 2) <= 2
    &&& tag == KERNING ==> word_at(b, at) == 0
    &&& tag == CHARACTERS ==> maps_sound(b, at)
}

/// Whether a font can be read: it is a single font, its tables are fewer than a two-byte number can
/// count, so that a walk over them can count one past their end, and each of them can be read.
pub open spec fn font_sound(b: Seq<u8>) -> bool {
    &&& long_at(b, 0) != COLLECTION
    &&& table_count(b) < 0xffff
    &&& forall|k: int| 0 <= k < table_count(b) ==> #[trigger] table_sound(b, k)
}

fn sound_map(font: &Vec<u8>, at: u64) -> (r: bool)
    requires
        at <= 0x2_0000_0000,
    ensures
        r == map_sound(font@, at as int),
{
    let format: u64 = word(font, at);
    if format == 14 {
        false
    } else if format == 10 {
        long(font, at + 16) <= MOST_MEMBERS
    } else if format == 12 || format == 13 {
        long(font, at + 12) <= MOST_MEMBERS
    } else {
        true
    }
}

fn sound_maps(font: &Vec<u8>, at: u64) -> (r: bool)
    requires
        at <= 0xffff_ffff,
    ensures
        r == maps_sound(font@, at as int),
{
    let n: u64 = word(font, at + 2);
    let mut m: u64 = 0;
    while m < n
        invariant
            m <= n <= 0xffff,
            at <= 0xffff_ffff,
            n == word_at(font@, at + 2),
            forall|j: int| 0 <= j < m ==> map_sound(font@, #[trigger] map_at(font@, at as int, j)),
        decreases n - m,
    {
        let map: u64 = at + long(font, at + 8 + 8 * m);
        assert(map == map_at(font@, at as int, m as int));
        if !sound_map(font, map) {
            return false;
        }
        m += 1;
    }
    true
}

fn sound_table(font: &Vec<u8>, k: u64) -> (r: bool)
    requires
        k <= 0xffff,
    ensures
        r == table_sound(font@, k as int),
{
    let tag: u64 = long(font, 12 + 16 * k);
    let at: u64 = long(font, 12 + 16 * k + 8);
    let len: u64 = long(font, 12 + 16 * k + 12);
    if is_unbounded(tag) {
        return false;
    }
    if tag == MEASURES as u64 {
        return word(font, at + 76) != 0x8000;
    }
    if tag == SUBSTITUTIONS as u64 || tag == POSITIONS as u64 {
        return len <= MOST_LAYOUT && word(font, at + 2) == 0;
    }
    if tag == CLASSES as u64 {
        return len <= MOST_LAYOUT && word(font, at + 2) <= 2;
    }
    if tag == KERNING as u64 {
        return word(font, at) == 0;
    }
    if tag == CHARACTERS as u64 {
        return sound_maps(font, at);
    }
    true
}

/// Whether a font can be read.
pub fn is_sound(font: &Vec<u8>) -> (r: bool)
    ensures
        r == font_sound(font@),
{
    if long(font, 0) == COLLECTION as u64 {
        return false;
    }
    let n: u64 = word(font, 4);
    if n == 0xffff {
        return false;
    }
    let mut k: u64 = 0;
    while k < n
        invariant
            k <= n < 0xffff,
            n == table_count(font@),
            forall|j: int| 0 <= j < k ==> #[trigger] table_sound(font@, j),
        decreases n - k,
    {
        if !sound_table(font, k) {
            return false;
        }
        k += 1;
    }
    true
}

/// The last of the first `n` tables that has a tag; a negative number where none has.
pub open spec fn last_of(b: Seq<u8>, tag: u32, n: int) -> int
    decreases n,
{
    if n <= 0 {
        -1
    } else if table_tag(b, n - 1) == tag {
        n - 1
    } else {
        last_of(b, tag, n - 1)
    }
}

/// Where the last table with a tag begins; nothing where no table has it.
pub open spec fn place_of(b: Seq<u8>, tag: u32) -> Option<int> {
    let k = last_of(b, tag, table_count(b));
    if k < 0 {
        None
    } else {
        Some(table_at(b, k))
    }
}

fn find(font: &Vec<u8>, tag: u32) -> (r: Option<u64>)
    ensures
        match r {
            Some(at) => place_of(font@, tag) == Some(at as int) && at <= 0xffff_ffff,
            None => place_of(font@, tag) is None,
        },
{
    let mut k: u64 = word(font, 4);
    while k > 0
        invariant
            k <= 0xffff,
            last_of(font@, tag, table_count(font@)) == last_of(font@, tag, k as int),
        decreases k,
    {
        k = k - 1;
        if long(font, 12 + 16 * k) == tag as u64 {
            assert(table_tag(font@, k as int) == tag);
            let at: u64 = long(font, 12 + 16 * k + 8);
            return Some(at);
        }
    }
    None
}

/// A two-byte number with its sign.
pub open spec fn signed(w: int) -> int {
    if w < 0x8000 {
        w
    } else {
        w - 0x1_0000
    }
}

/// Whether two corners of a box, each coordinate two bytes with a sign, are no further apart than two
/// bytes can hold.
pub open spec fn near(low: int, high: int) -> bool {
    -0x8000 <= signed(high) - signed(low) <= 0x7fff && -0x8000 <= signed(low) - signed(high)
        <= 0x7fff
}

/// Whether the width and the height of the box of an outline fit two bytes.
pub open spec fn box_fits(b: Seq<u8>, at: int) -> bool {
    near(word_at(b, at + 2), word_at(b, at + 6)) && near(word_at(b, at + 4), word_at(b, at + 8))
}

/// Where the outline of a glyph begins, counted from that of the first: half of it in two bytes, or
/// all of it in four.
pub open spec fn outline_at(b: Seq<u8>, head: int, places: int, g: int) -> int {
    if word_at(b, head + 50) == 0 {
        2 * word_at(b, places + 2 * g)
    } else {
        long_at(b, places + 4 * g)
    }
}

/// Whether the boxes of outlines fit that begin where some tables say.
pub open spec fn boxes_in(b: Seq<u8>, head: int, counts: int, places: int, outlines: int) -> bool {
    forall|g: int|
        0 <= g < word_at(b, counts + 4) ==> box_fits(
            b,
            outlines + #[trigger] outline_at(b, head, places, g),
        )
}

/// Whether the boxes of all outlines of a font fit. A font without outlines has none.
pub open spec fn boxes_fit(b: Seq<u8>) -> bool {
    match (
        place_of(b, HEAD),
        place_of(b, COUNTS),
        place_of(b, LOCATIONS),
        place_of(b, OUTLINES),
    ) {
        (Some(head), Some(counts), Some(places), Some(outlines)) => boxes_in(
            b,
            head,
            counts,
            places,
            outlines,
        ),
        _ => true,
    }
}

fn are_near(low: u64, high: u64) -> (r: bool)
    requires
        low <= 0xffff,
        high <= 0xffff,
    ensures
        r == near(low as int, high as int),
{
    let l: i64 = if low < 0x8000 {
        low as i64
    } else {
        low as i64 - 0x1_0000
    };
    let h: i64 = if high < 0x8000 {
        high as i64
    } else {
        high as i64 - 0x1_0000
    };
    -0x8000 <= h - l && h - l <= 0x7fff && -0x8000 <= l - h && l - h <= 0x7fff
}

fn fits_box(font: &Vec<u8>, at: u64) -> (r: bool)
    requires
        at <= 0x2_0000_0000,
    ensures
        r == box_fits(font@, at as int),
{
    are_near(word(font, at + 2), word(font, at + 6)) && are_near(
        word(font, at + 4),
        word(font, at + 8),
    )
}

/// Whether the boxes of all outlines of a font fit.
pub fn fits_boxes(font: &Vec<u8>) -> (r: bool)
    ensures
        r == boxes_fit(font@),
{
    match (find(font, HEAD), find(font, COUNTS), find(font, LOCATIONS), find(font, OUTLINES)) {
        (Some(head), Some(counts), Some(places), Some(outlines)) => {
            let short: bool = word(font, head + 50) == 0;
            let n: u64 = word(font, counts + 4);
            let mut g: u64 = 0;
            while g < n
                invariant
                    g <= n <= 0xffff,
                    n == word_at(font@, counts + 4),
                    head <= 0xffff_ffff,
                    places <= 0xffff_ffff,
                    outlines <= 0xffff_ffff,
                    place_of(font@, HEAD) == Some(head as int),
                    place_of(font@, COUNTS) == Some(counts as int),
                    place_of(font@, LOCATIONS) == Some(places as int),
                    place_of(font@, OUTLINES) == Some(outlines as int),
                    short == (word_at(font@, head + 50) == 0),
                    forall|j: int|
                        0 <= j < g ==> box_fits(
                            font@,
                            outlines + #[trigger] outline_at(font@, head as int, places as int, j),
                        ),
                decreases n - g,
            {
                let at: u64 = if short {
                    2 * word(font, places + 2 * g)
                } else {
                    long(font, places + 4 * g)
                };
                assert(at == outline_at(font@, head as int, places as int, g as int));
                if !fits_box(font, outlines + at) {
                    assert(!boxes_in(
                        font@,
                        head as int,
                        counts as int,
                        places as int,
                        outlines as int,
                    ));
                    return false;
                }
                g += 1;
            }
            true
        },
        _ => true,
    }
}

/// Whether a character belongs to a script of India whose syllables the shaper reorders.
pub open spec fn indic(c: char) -> bool {
    ||| 0x900 <= c as u32 <= 0xd7f
    ||| 0xa8e0 <= c as u32 <= 0xa8ff
    ||| 0x1_1b00 <= c as u32 <= 0x1_1b0a
    ||| 0x1_1df0 <= c as u32 <= 0x1_1df1
    ||| 0x1_1fc0 <= c as u32 <= 0x1_1fff
}

fn is_indic(c: char) -> (r: bool)
    ensures
        r == indic(c),
{
    let n: u32 = c as u32;
    0x900 <= n && n <= 0xd7f || 0xa8e0 <= n && n <= 0xa8ff || 0x1_1b00 <= n && n <= 0x1_1b0a
        || 0x1_1df0 <= n && n <= 0x1_1df1 || 0x1_1fc0 <= n && n <= 0x1_1fff
}

/// A tag of a script with the case in which scripts are told apart.
pub open spec fn cased(tag: u32) -> u32 {
    (tag & 0xdfdf_dfdf) | 0x0020_2020
}

/// Whether a tag names a script of India whose syllables the shaper reorders: `Beng`, `Deva`,
/// `Gujr`, `Guru`, `Knda`, `Mlym`, `Orya`, `Taml` or `Telu`.
pub open spec fn indic_tag(tag: u32) -> bool {
    ||| cased(tag) == 0x4265_6e67
    ||| cased(tag) == 0x4465_7661
    ||| cased(tag) == 0x4775_6a72
    ||| cased(tag) == 0x4775_7275
    ||| cased(tag) == 0x4b6e_6461
    ||| cased(tag) == 0x4d6c_796d
    ||| cased(tag) == 0x4f72_7961
    ||| cased(tag) == 0x5461_6d6c
    ||| cased(tag) == 0x5465_6c75
}

fn is_indic_tag(tag: u32) -> (r: bool)
    ensures
        r == indic_tag(tag),
{
    let t: u32 = (tag & 0xdfdf_dfdf) | 0x0020_2020;
    t == 0x4265_6e67 || t == 0x4465_7661 || t == 0x4775_6a72 || t == 0x4775_7275 || t == 0x4b6e_6461
        || t == 0x4d6c_796d || t == 0x4f72_7961 || t == 0x5461_6d6c || t == 0x5465_6c75
}

/// Whether a text is taken apart into the syllables of such a script: the script is given, or none
/// is and a character is of one.
pub open spec fn syllabic(text: Seq<char>, script: Option<u32>) -> bool {
    match script {
        Some(tag) => if tag == 0 {
            exists|i: int| 0 <= i < text.len() && #[trigger] indic(text[i])
        } else {
            indic_tag(tag)
        },
        None => exists|i: int| 0 <= i < text.len() && #[trigger] indic(text[i]),
    }
}

/// Whether a character belongs to a script whose characters are taken one by one, or to none: it is
/// Latin, Greek, Cyrillic, Armenian or Hebrew, a mark of these, or punctuation.
pub open spec fn simple(c: char) -> bool {
    (c as u32) < 0x600 || 0x1e00 <= c as u32 <= 0x20cf
}

/// Whether a tag names a script whose characters are taken one by one: `Cyrl`, `Grek`, `Hebr` or
/// `Latn`.
pub open spec fn simple_tag(tag: u32) -> bool {
    ||| cased(tag) == 0x4379_726c
    ||| cased(tag) == 0x4772_656b
    ||| cased(tag) == 0x4865_6272
    ||| cased(tag) == 0x4c61_746e
}

fn is_simple_tag(tag: u32) -> (r: bool)
    ensures
        r == simple_tag(tag),
{
    let t: u32 = (tag & 0xdfdf_dfdf) | 0x0020_2020;
    t == 0x4379_726c || t == 0x4772_656b || t == 0x4865_6272 || t == 0x4c61_746e
}

/// Whether the characters of a text are taken one by one: the script is given and is such a one, or none
/// is given and every character belongs to such a one.
pub open spec fn one_by_one(text: Seq<char>, script: Option<u32>) -> bool {
    match script {
        Some(tag) => if tag == 0 {
            forall|i: int| 0 <= i < text.len() ==> #[trigger] simple(text[i])
        } else {
            simple_tag(tag)
        },
        None => forall|i: int| 0 <= i < text.len() ==> #[trigger] simple(text[i]),
    }
}

fn is_one_by_one(cs: &Vec<char>, script: Option<u32>) -> (r: bool)
    ensures
        r == one_by_one(cs@, script),
{
    match script {
        Some(tag) => {
            if tag != 0 {
                return is_simple_tag(tag);
            }
        },
        None => {},
    }
    let mut i: usize = 0;
    while i < cs.len()
        invariant
            i <= cs@.len(),
            script matches Some(tag) ==> tag == 0,
            forall|j: int| 0 <= j < i ==> #[trigger] simple(cs@[j]),
        decreases cs@.len() - i,
    {
        let n: u32 = cs[i] as u32;
        if !(n < 0x600 || 0x1e00 <= n && n <= 0x20cf) {
            assert(!simple(cs@[i as int]));
            return false;
        }
        i += 1;
    }
    true
}

/// The most glyphs of a character. One that is taken by itself is taken apart into four at most, and
/// not at all where it is of the first 128. In the scripts of syllables a circle may be put beside it
/// and beside each of its parts.
pub open spec fn growth(c: char, one_by_one: bool) -> int {
    if !one_by_one {
        10
    } else if (c as u32) < 0x80 {
        1
    } else {
        4
    }
}

/// The most glyphs of the first `n` characters of a text.
pub open spec fn grown(text: Seq<char>, one_by_one: bool, n: int) -> int
    decreases n,
{
    if n <= 0 {
        1
    } else {
        grown(text, one_by_one, n - 1) + growth(text[n - 1], one_by_one)
    }
}

/// The most glyphs of a text.
pub open spec fn most_glyphs(text: Seq<char>, script: Option<u32>) -> int {
    grown(text, one_by_one(text, script), text.len() as int)
}

proof fn lemma_grown(text: Seq<char>, one_by_one: bool, n: int)
    requires
        0 <= n <= text.len(),
    ensures
        n + 1 <= grown(text, one_by_one, n) <= 10 * n + 1,
    decreases n,
{
    if n > 0 {
        lemma_grown(text, one_by_one, n - 1);
    }
}

/// The most glyphs of a text in a font that joins glyphs: the shaper counts the parts of a joined glyph
/// in a byte.
pub const MOST_JOINED: u64 = 255;

/// The most that the glyphs of a text are moved, counted in two-byte numbers: the shaper adds them up
/// in four bytes.
pub const MOST_MOVED: u64 = 8191;

/// Whether the shaper can add up where the glyphs of a text stand. Each lookup that moves glyphs moves
/// each of them at most twice by a two-byte number, and its offset once more with its advance; the width
/// of a glyph, its box and its origin are four more such numbers; and the offsets of all glyphs may be
/// added up along a line of marks.
pub open spec fn length_fits(font: Seq<u8>, text: Seq<char>, script: Option<u32>) -> bool {
    let n = most_glyphs(text, script);
    &&& n * (font_moves(font) + 4) <= MOST_MOVED
    &&& font_joins(font) ==> n <= MOST_JOINED
}

/// The most characters of a text whose syllables are reordered. The shaper counts the glyphs of a
/// syllable in a byte; before, it may put a circle beside each character and take each apart into
/// four.
pub const MOST_SYLLABIC: usize = 50;

/// Whether the syllables of a text stay as short as the shaper can count.
pub open spec fn syllables_fit(text: Seq<char>, script: Option<u32>) -> bool {
    syllabic(text, script) ==> text.len() <= MOST_SYLLABIC
}

/// Whether the shaper can take a text in a font.
pub open spec fn text_fits(font: Seq<u8>, text: Seq<char>, script: Option<u32>) -> bool {
    length_fits(font, text, script) && syllables_fit(text, script)
}

fn is_syllabic(cs: &Vec<char>, script: Option<u32>) -> (r: bool)
    ensures
        r == syllabic(cs@, script),
{
    match script {
        Some(tag) => {
            if tag != 0 {
                return is_indic_tag(tag);
            }
        },
        None => {},
    }
    let mut i: usize = 0;
    while i < cs.len()
        invariant
            i <= cs@.len(),
            script matches Some(tag) ==> tag == 0,
            forall|j: int| 0 <= j < i ==> !#[trigger] indic(cs@[j]),
        decreases cs@.len() - i,
    {
        if is_indic(cs[i]) {
            assert(indic(cs@[i as int]));
            return true;
        }
        i += 1;
    }
    false
}

fn count_glyphs(cs: &Vec<char>, script: Option<u32>) -> (r: u64)
    requires
        cs@.len() <= MOST_MOVED,
    ensures
        r == most_glyphs(cs@, script),
        1 <= r <= 10 * MOST_MOVED + 1,
{
    let alone: bool = is_one_by_one(cs, script);
    let mut r: u64 = 1;
    let mut i: usize = 0;
    while i < cs.len()
        invariant
            i <= cs@.len() <= MOST_MOVED,
            r == grown(cs@, alone, i as int),
            1 <= r <= 10 * i + 1,
        decreases cs@.len() - i,
    {
        let c: u32 = cs[i] as u32;
        r += if !alone {
            10u64
        } else if c < 0x80 {
            1u64
        } else {
            4u64
        };
        i += 1;
    }
    r
}

proof fn lemma_long_texts(font: Seq<u8>, text: Seq<char>, script: Option<u32>)
    requires
        text.len() > MOST_MOVED,
        0 <= font_moves(font),
    ensures
        !length_fits(font, text, script),
{
    lemma_grown(text, one_by_one(text, script), text.len() as int);
    let n = most_glyphs(text, script);
    let m = font_moves(font) + 4;
    assert(n * m > MOST_MOVED) by (nonlinear_arith)
        requires
            n > MOST_MOVED,
            m >= 1,
    ;
}

/// Whether the shaper can take a text in a font.
pub fn fits_text(font: &Vec<u8>, text: &str, script: Option<u32>) -> (r: bool)
    ensures
        r == text_fits(font@, text@, script),
{
    let cs: Vec<char> = chars_of(text);
    let moved: u64 = moves(font);
    if cs.len() as u64 > MOST_MOVED {
        proof {
            lemma_long_texts(font@, text@, script);
        }
        return false;
    }
    let n: u64 = count_glyphs(&cs, script);
    let m: u64 = moved + 4;
    assert(n * m <= 0x2_0000 * 0x1_0000_0000) by (nonlinear_arith)
        requires
            n <= 0x2_0000,
            m <= 0x1_0000_0000,
    ;
    if n * m > MOST_MOVED || n > MOST_JOINED && joins(font) {
        return false;
    }
    !is_syllabic(&cs, script) || cs.len() <= MOST_SYLLABIC
}

/// A font that holds none of the tables that are looked into can be read, and its outlines have no box
/// that does not fit.
pub proof fn law_plain_fonts_are_sound(b: Seq<u8>)
    requires
        long_at(b, 0) != COLLECTION,
        table_count(b) < 0xffff,
        forall|k: int|
            0 <= k < table_count(b) ==> !unbounded_tag(#[trigger] table_tag(b, k)) && table_tag(b, k)
                != MEASURES && table_tag(b, k) != SUBSTITUTIONS && table_tag(b, k) != POSITIONS
                && table_tag(b, k) != CLASSES && table_tag(b, k) != KERNING && table_tag(b, k)
                != CHARACTERS && table_tag(b, k) != OUTLINES,
    ensures
        font_sound(b),
        boxes_fit(b),
{
    lemma_none_last(b, OUTLINES, table_count(b));
}

proof fn lemma_none_last(b: Seq<u8>, tag: u32, n: int)
    requires
        n <= table_count(b),
        forall|k: int| 0 <= k < table_count(b) ==> (#[trigger] table_tag(b, k)) != tag,
    ensures
        last_of(b, tag, n) < 0,
    decreases n,
{
    if n > 0 {
        lemma_none_last(b, tag, n - 1);
    }
}

/// A text with no character of such a script, and with none of them asked for, is never taken
/// apart into syllables: it is refused only where its glyphs are too many.
pub proof fn law_other_scripts_are_taken(font: Seq<u8>, text: Seq<char>, script: Option<u32>)
    requires
        script matches Some(tag) ==> tag != 0 && !indic_tag(tag),
        script is None ==> forall|i: int| 0 <= i < text.len() ==> !#[trigger] indic(text[i]),
    ensures
        text_fits(font, text, script) == length_fits(font, text, script),
{
}

/// A text of at most 254 of the first 128 characters is taken in any font that moves its glyphs at most 28
/// times.
pub proof fn law_short_texts_are_taken(font: Seq<u8>, text: Seq<char>)
    requires
        text.len() < MOST_JOINED,
        forall|i: int| 0 <= i < text.len() ==> (#[trigger] text[i] as u32) < 0x80,
        0 <= font_moves(font) <= 28,
    ensures
        text_fits(font, text, None),
{
    assert forall|i: int| 0 <= i < text.len() implies #[trigger] simple(text[i]) && !indic(
        text[i],
    ) by {
        assert((text[i] as u32) < 0x80);
    }
    lemma_one_each(text, text.len() as int);
    let n = most_glyphs(text, None);
    let m = font_moves(font) + 4;
    assert(n * m <= MOST_MOVED) by (nonlinear_arith)
        requires
            0 <= n <= 255,
            0 <= m <= 32,
    ;
}

proof fn lemma_one_each(text: Seq<char>, n: int)
    requires
        0 <= n <= text.len(),
        forall|i: int| 0 <= i < text.len() ==> (#[trigger] text[i] as u32) < 0x80,
    ensures
        grown(text, true, n) == n + 1,
    decreases n,
{
    if n > 0 {
        lemma_one_each(text, n - 1);
        assert((text[n - 1] as u32) < 0x80);
    }
}

}
