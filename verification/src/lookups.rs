//! What the tables of substitutions and positions of a font hold: which of their lookups the shaper
//! can apply, which join glyphs, and how many move them.

use vstd::prelude::*;

use crate::font::{
    long, table_at, table_count, table_end, table_tag, word, word_at, KERNING, POSITIONS, SUBSTITUTIONS,
};

verus! {

/// Whether a range of glyphs does not end before it begins.
pub open spec fn range_sound(b: Seq<u8>, at: int, r: int) -> bool {
    word_at(b, at + 4 + 6 * r) <= word_at(b, at + 6 + 6 * r)
}

/// Whether the ranges of a set of glyphs are sound. A set that lists its glyphs has none.
pub open spec fn coverage_sound(b: Seq<u8>, at: int) -> bool {
    word_at(b, at) == 2 ==> forall|r: int|
        0 <= r < word_at(b, at + 2) ==> #[trigger] range_sound(b, at, r)
}

/// Whether a set of glyphs is there: it lists glyphs or ranges, and ends before its table does.
pub open spec fn coverage_whole(b: Seq<u8>, end: int, at: int) -> bool {
    ||| word_at(b, at) == 1 && at + 4 + 2 * word_at(b, at + 2) <= end
    ||| word_at(b, at) == 2 && at + 4 + 6 * word_at(b, at + 2) <= end
}

/// Whether the set of glyphs that a list of a lookup points to is there and sound.
pub open spec fn covered(b: Seq<u8>, end: int, at: int, list: int, i: int) -> bool {
    let offset = word_at(b, list + 2 * i);
    &&& offset != 0
    &&& coverage_whole(b, end, at + offset)
    &&& coverage_sound(b, at + offset)
}

/// Whether each set of glyphs that a list of a lookup points to is there and sound.
pub open spec fn all_covered(b: Seq<u8>, end: int, at: int, list: int, n: int) -> bool {
    forall|i: int| 0 <= i < n ==> #[trigger] covered(b, end, at, list, i)
}

/// Whether a lookup by the glyphs that follow can be applied: each of its sets of glyphs is there, where
/// it goes by sets, and its first is sound, where it goes by single glyphs or classes.
pub open spec fn context_sound(b: Seq<u8>, end: int, at: int) -> bool {
    if word_at(b, at) == 3 {
        all_covered(b, end, at, at + 6, word_at(b, at + 2))
    } else {
        coverage_sound(b, at + word_at(b, at + 2))
    }
}

/// Whether a lookup that goes backward can be applied: each of its sets of glyphs is there.
pub open spec fn backward_sound(b: Seq<u8>, end: int, at: int) -> bool {
    let before = word_at(b, at + 4);
    let after = at + 6 + 2 * before;
    &&& coverage_sound(b, at + word_at(b, at + 2))
    &&& all_covered(b, end, at, at + 6, before)
    &&& all_covered(b, end, at, after + 2, word_at(b, after))
}

/// Whether a lookup by the glyphs around can be applied, as one by those that follow.
pub open spec fn chain_sound(b: Seq<u8>, end: int, at: int) -> bool {
    if word_at(b, at) == 3 {
        let before = word_at(b, at + 2);
        let input = at + 4 + 2 * before;
        let inputs = word_at(b, input);
        let after = input + 2 + 2 * inputs;
        &&& all_covered(b, end, at, at + 4, before)
        &&& all_covered(b, end, at, input + 2, inputs)
        &&& all_covered(b, end, at, after + 2, word_at(b, after))
    } else {
        coverage_sound(b, at + word_at(b, at + 2))
    }
}

/// Whether a substitution can be applied: it does not put several glyphs in the place of one, it is not
/// an extension, which may be any, and its sets of glyphs are sound.
pub open spec fn substitution_sound(b: Seq<u8>, end: int, kind: int, at: int) -> bool {
    if kind == 2 || kind == 7 {
        false
    } else if kind == 5 {
        context_sound(b, end, at)
    } else if kind == 6 {
        chain_sound(b, end, at)
    } else if kind == 8 {
        backward_sound(b, end, at)
    } else {
        coverage_sound(b, at + word_at(b, at + 2))
    }
}

/// Whether a form of values holds plain numbers alone, none that vary with the size.
pub open spec fn plain_values(form: int) -> bool {
    form % 0x100 < 0x10
}

/// The most members of a table of values or anchors with rows and columns: their bytes can be counted
/// in four bytes.
pub const MOST_CELLS: u64 = 0x100_0000;

/// Whether an anchor is a plain point, one that does not vary with the size.
pub open spec fn anchor_sound(b: Seq<u8>, at: int) -> bool {
    word_at(b, at) != 3
}

/// Where the anchor of a mark is.
pub open spec fn mark_at(b: Seq<u8>, at: int, i: int) -> int {
    at + word_at(b, at + 4 + 4 * i)
}

/// Whether the anchors of marks are sound.
pub open spec fn marks_sound(b: Seq<u8>, at: int) -> bool {
    forall|i: int| 0 <= i < word_at(b, at) ==> anchor_sound(b, #[trigger] mark_at(b, at, i))
}

/// Whether an anchor of a table of anchors is missing or sound.
pub open spec fn cell_sound(b: Seq<u8>, at: int, i: int) -> bool {
    let offset = word_at(b, at + 2 + 2 * i);
    offset == 0 || anchor_sound(b, at + offset)
}

/// Whether a table of anchors is small enough, and its anchors sound.
pub open spec fn cells_sound(b: Seq<u8>, at: int, columns: int) -> bool {
    &&& word_at(b, at) * columns <= MOST_CELLS
    &&& forall|i: int| 0 <= i < word_at(b, at) * columns ==> #[trigger] cell_sound(b, at, i)
}

/// Where the table of anchors of a ligature is.
pub open spec fn ligature_at(b: Seq<u8>, at: int, i: int) -> int {
    at + word_at(b, at + 2 + 2 * i)
}

/// Whether the anchors of ligatures are sound.
pub open spec fn ligatures_sound(b: Seq<u8>, at: int, columns: int) -> bool {
    forall|i: int|
        0 <= i < word_at(b, at) ==> cells_sound(b, #[trigger] ligature_at(b, at, i), columns)
}

/// Whether a lookup that moves glyphs can be applied: it moves single glyphs or pairs by plain numbers,
/// or marks to plain anchors; it does not go by the glyphs around, does not join glyphs into a line,
/// and is not an extension, which may be any.
pub open spec fn position_sound(b: Seq<u8>, kind: int, at: int) -> bool {
    &&& kind != 3 && kind != 7 && kind != 8 && kind != 9
    &&& coverage_sound(b, at + word_at(b, at + 2))
    &&& kind == 1 ==> plain_values(word_at(b, at + 4))
    &&& kind == 2 ==> plain_values(word_at(b, at + 4)) && plain_values(word_at(b, at + 6))
    &&& kind == 2 && word_at(b, at) == 2 ==> word_at(b, at + 12) * word_at(b, at + 14)
        <= MOST_CELLS
    &&& kind == 4 || kind == 5 || kind == 6 ==> marks_sound(b, at + word_at(b, at + 8))
    &&& kind == 4 || kind == 6 ==> cells_sound(b, at + word_at(b, at + 10), word_at(b, at + 6))
    &&& kind == 5 ==> ligatures_sound(b, at + word_at(b, at + 10), word_at(b, at + 6))
}

/// Where the list of the lookups of a table begins.
pub open spec fn lookups_at(b: Seq<u8>, k: int) -> int {
    table_at(b, k) + word_at(b, table_at(b, k) + 8)
}

/// Where a lookup of a table begins.
pub open spec fn lookup_at(b: Seq<u8>, k: int, l: int) -> int {
    lookups_at(b, k) + word_at(b, lookups_at(b, k) + 2 + 2 * l)
}

/// The kind of a lookup.
pub open spec fn lookup_kind(b: Seq<u8>, k: int, l: int) -> int {
    word_at(b, lookup_at(b, k, l))
}

/// Where a part of a lookup begins.
pub open spec fn part_at(b: Seq<u8>, at: int, p: int) -> int {
    at + word_at(b, at + 6 + 2 * p)
}

/// Whether a part of a lookup can be applied.
pub open spec fn part_sound(b: Seq<u8>, k: int, kind: int, at: int) -> bool {
    if table_tag(b, k) == SUBSTITUTIONS {
        substitution_sound(b, table_end(b, k), kind, at)
    } else {
        position_sound(b, kind, at)
    }
}

/// Whether a lookup can be applied: each of its parts can be.
pub open spec fn lookup_sound(b: Seq<u8>, k: int, l: int) -> bool {
    let at = lookup_at(b, k, l);
    forall|p: int|
        0 <= p < word_at(b, at + 4) ==> part_sound(
            b,
            k,
            word_at(b, at),
            #[trigger] part_at(b, at, p),
        )
}

/// Whether the lookups of a table can be applied. A table of another kind has none.
pub open spec fn table_applies(b: Seq<u8>, k: int) -> bool {
    table_tag(b, k) == SUBSTITUTIONS || table_tag(b, k) == POSITIONS ==> forall|l: int|
        0 <= l < word_at(b, lookups_at(b, k)) ==> #[trigger] lookup_sound(b, k, l)
}

/// Whether all lookups of a font can be applied.
pub open spec fn font_applies(b: Seq<u8>) -> bool {
    forall|k: int| 0 <= k < table_count(b) ==> #[trigger] table_applies(b, k)
}

fn sound_coverage(font: &Vec<u8>, at: u64) -> (r: bool)
    requires
        at <= 0x10_0000_0000,
    ensures
        r == coverage_sound(font@, at as int),
{
    if word(font, at) != 2 {
        return true;
    }
    let n: u64 = word(font, at + 2);
    let mut i: u64 = 0;
    while i < n
        invariant
            i <= n <= 0xffff,
            at <= 0x10_0000_0000,
            word_at(font@, at as int) == 2,
            n == word_at(font@, at + 2),
            forall|j: int| 0 <= j < i ==> #[trigger] range_sound(font@, at as int, j),
        decreases n - i,
    {
        if word(font, at + 4 + 6 * i) > word(font, at + 6 + 6 * i) {
            assert(!range_sound(font@, at as int, i as int));
            return false;
        }
        i += 1;
    }
    true
}

fn whole_coverage(font: &Vec<u8>, end: u64, at: u64) -> (r: bool)
    requires
        at <= 0x10_0000_0000,
    ensures
        r == coverage_whole(font@, end as int, at as int),
{
    let form: u64 = word(font, at);
    let n: u64 = word(font, at + 2);
    form == 1 && at + 4 + 2 * n <= end || form == 2 && at + 4 + 6 * n <= end
}

fn covers(font: &Vec<u8>, end: u64, at: u64, list: u64, n: u64) -> (r: bool)
    requires
        at <= 0x4_0000_0000,
        list <= 0x8_0000_0000,
        n <= 0xffff,
    ensures
        r == all_covered(font@, end as int, at as int, list as int, n as int),
{
    let mut i: u64 = 0;
    while i < n
        invariant
            i <= n <= 0xffff,
            at <= 0x4_0000_0000,
            list <= 0x8_0000_0000,
            forall|j: int|
                0 <= j < i ==> #[trigger] covered(
                    font@,
                    end as int,
                    at as int,
                    list as int,
                    j,
                ),
        decreases n - i,
    {
        let offset: u64 = word(font, list + 2 * i);
        if offset == 0 || !whole_coverage(font, end, at + offset) || !sound_coverage(
            font,
            at + offset,
        ) {
            assert(!covered(font@, end as int, at as int, list as int, i as int));
            return false;
        }
        i += 1;
    }
    true
}

fn sound_context(font: &Vec<u8>, end: u64, at: u64) -> (r: bool)
    requires
        at <= 0x4_0000_0000,
    ensures
        r == context_sound(font@, end as int, at as int),
{
    if word(font, at) != 3 {
        return sound_coverage(font, at + word(font, at + 2));
    }
    covers(font, end, at, at + 6, word(font, at + 2))
}

fn sound_backward(font: &Vec<u8>, end: u64, at: u64) -> (r: bool)
    requires
        at <= 0x4_0000_0000,
    ensures
        r == backward_sound(font@, end as int, at as int),
{
    let before: u64 = word(font, at + 4);
    let after: u64 = at + 6 + 2 * before;
    sound_coverage(font, at + word(font, at + 2)) && covers(font, end, at, at + 6, before) && covers(
        font,
        end,
        at,
        after + 2,
        word(font, after),
    )
}

fn sound_chain(font: &Vec<u8>, end: u64, at: u64) -> (r: bool)
    requires
        at <= 0x4_0000_0000,
    ensures
        r == chain_sound(font@, end as int, at as int),
{
    if word(font, at) != 3 {
        return sound_coverage(font, at + word(font, at + 2));
    }
    let before: u64 = word(font, at + 2);
    let input: u64 = at + 4 + 2 * before;
    let inputs: u64 = word(font, input);
    let after: u64 = input + 2 + 2 * inputs;
    covers(font, end, at, at + 4, before) && covers(font, end, at, input + 2, inputs) && covers(
        font,
        end,
        at,
        after + 2,
        word(font, after),
    )
}

fn sound_substitution(font: &Vec<u8>, end: u64, kind: u64, at: u64) -> (r: bool)
    requires
        at <= 0x4_0000_0000,
    ensures
        r == substitution_sound(font@, end as int, kind as int, at as int),
{
    if kind == 2 || kind == 7 {
        false
    } else if kind == 5 {
        sound_context(font, end, at)
    } else if kind == 6 {
        sound_chain(font, end, at)
    } else if kind == 8 {
        sound_backward(font, end, at)
    } else {
        sound_coverage(font, at + word(font, at + 2))
    }
}

fn sound_marks(font: &Vec<u8>, at: u64) -> (r: bool)
    requires
        at <= 0x8_0000_0000,
    ensures
        r == marks_sound(font@, at as int),
{
    let n: u64 = word(font, at);
    let mut i: u64 = 0;
    while i < n
        invariant
            i <= n <= 0xffff,
            at <= 0x8_0000_0000,
            n == word_at(font@, at as int),
            forall|j: int|
                0 <= j < i ==> anchor_sound(font@, #[trigger] mark_at(font@, at as int, j)),
        decreases n - i,
    {
        let anchor: u64 = at + word(font, at + 4 + 4 * i);
        assert(anchor == mark_at(font@, at as int, i as int));
        if word(font, anchor) == 3 {
            return false;
        }
        i += 1;
    }
    true
}

proof fn lemma_cells(rows: int, columns: int)
    requires
        0 <= rows <= 0xffff,
        0 <= columns <= 0xffff,
    ensures
        0 <= rows * columns <= 0xffff_ffff,
{
    assert(0 <= rows * columns <= 0xffff * 0xffff) by (nonlinear_arith)
        requires
            0 <= rows <= 0xffff,
            0 <= columns <= 0xffff,
    ;
}

fn sound_cells(font: &Vec<u8>, at: u64, columns: u64) -> (r: bool)
    requires
        at <= 0x8_0000_0000,
        columns <= 0xffff,
    ensures
        r == cells_sound(font@, at as int, columns as int),
{
    let rows: u64 = word(font, at);
    proof {
        lemma_cells(rows as int, columns as int);
    }
    let n: u64 = rows * columns;
    if n > MOST_CELLS {
        return false;
    }
    let mut i: u64 = 0;
    while i < n
        invariant
            i <= n <= MOST_CELLS,
            at <= 0x8_0000_0000,
            n == word_at(font@, at as int) * columns,
            forall|j: int| 0 <= j < i ==> #[trigger] cell_sound(font@, at as int, j),
        decreases n - i,
    {
        let offset: u64 = word(font, at + 2 + 2 * i);
        if offset != 0 && word(font, at + offset) == 3 {
            assert(!cell_sound(font@, at as int, i as int));
            return false;
        }
        i += 1;
    }
    true
}

fn sound_ligatures(font: &Vec<u8>, at: u64, columns: u64) -> (r: bool)
    requires
        at <= 0x4_0000_0000,
        columns <= 0xffff,
    ensures
        r == ligatures_sound(font@, at as int, columns as int),
{
    let n: u64 = word(font, at);
    let mut i: u64 = 0;
    while i < n
        invariant
            i <= n <= 0xffff,
            at <= 0x4_0000_0000,
            columns <= 0xffff,
            n == word_at(font@, at as int),
            forall|j: int|
                0 <= j < i ==> cells_sound(
                    font@,
                    #[trigger] ligature_at(font@, at as int, j),
                    columns as int,
                ),
        decreases n - i,
    {
        let cells: u64 = at + word(font, at + 2 + 2 * i);
        assert(cells == ligature_at(font@, at as int, i as int));
        if !sound_cells(font, cells, columns) {
            return false;
        }
        i += 1;
    }
    true
}

fn sound_pair(font: &Vec<u8>, at: u64) -> (r: bool)
    requires
        at <= 0x2_0000_0000,
    ensures
        r == (word_at(font@, at as int) == 2 ==> word_at(font@, at + 12) * word_at(font@, at + 14)
            <= MOST_CELLS),
{
    if word(font, at) != 2 {
        return true;
    }
    let rows: u64 = word(font, at + 12);
    let columns: u64 = word(font, at + 14);
    proof {
        lemma_cells(rows as int, columns as int);
    }
    rows * columns <= MOST_CELLS
}

fn sound_position(font: &Vec<u8>, kind: u64, at: u64) -> (r: bool)
    requires
        at <= 0x2_0000_0000,
    ensures
        r == position_sound(font@, kind as int, at as int),
{
    if kind == 3 || kind == 7 || kind == 8 || kind == 9 {
        return false;
    }
    if !sound_coverage(font, at + word(font, at + 2)) {
        return false;
    }
    if kind == 1 {
        return word(font, at + 4) % 0x100 < 0x10;
    }
    if kind == 2 {
        return word(font, at + 4) % 0x100 < 0x10 && word(font, at + 6) % 0x100 < 0x10 && sound_pair(
            font,
            at,
        );
    }
    if kind == 4 || kind == 5 || kind == 6 {
        let columns: u64 = word(font, at + 6);
        let held: u64 = at + word(font, at + 10);
        if !sound_marks(font, at + word(font, at + 8)) {
            return false;
        }
        return if kind == 5 {
            sound_ligatures(font, held, columns)
        } else {
            sound_cells(font, held, columns)
        };
    }
    true
}

fn sound_lookup(font: &Vec<u8>, k: u64, l: u64, list: u64) -> (r: bool)
    requires
        k <= 0xffff,
        l <= 0xffff,
        list <= 0x1_0001_0000,
        list == lookups_at(font@, k as int),
    ensures
        r == lookup_sound(font@, k as int, l as int),
{
    let at: u64 = list + word(font, list + 2 + 2 * l);
    let tag: u64 = long(font, 12 + 16 * k);
    let end: u64 = long(font, 12 + 16 * k + 8) + long(font, 12 + 16 * k + 12);
    let kind: u64 = word(font, at);
    let n: u64 = word(font, at + 4);
    let mut p: u64 = 0;
    while p < n
        invariant
            p <= n <= 0xffff,
            at <= 0x1_0002_0000,
            at == lookup_at(font@, k as int, l as int),
            tag == table_tag(font@, k as int),
            end == table_end(font@, k as int),
            kind == word_at(font@, at as int),
            n == word_at(font@, at + 4),
            forall|j: int|
                0 <= j < p ==> part_sound(
                    font@,
                    k as int,
                    kind as int,
                    #[trigger] part_at(font@, at as int, j),
                ),
        decreases n - p,
    {
        let part: u64 = at + word(font, at + 6 + 2 * p);
        assert(part == part_at(font@, at as int, p as int));
        let sound: bool = if tag == SUBSTITUTIONS as u64 {
            sound_substitution(font, end, kind, part)
        } else {
            sound_position(font, kind, part)
        };
        if !sound {
            return false;
        }
        p += 1;
    }
    true
}

fn lists(font: &Vec<u8>, k: u64) -> (r: u64)
    requires
        k <= 0xffff,
    ensures
        r == lookups_at(font@, k as int),
        r <= 0x1_0001_0000,
{
    let at: u64 = long(font, 12 + 16 * k + 8);
    assert(at == table_at(font@, k as int));
    at + word(font, at + 8)
}

fn applies_table(font: &Vec<u8>, k: u64) -> (r: bool)
    requires
        k <= 0xffff,
    ensures
        r == table_applies(font@, k as int),
{
    let tag: u64 = long(font, 12 + 16 * k);
    assert(tag == table_tag(font@, k as int));
    if tag != SUBSTITUTIONS as u64 && tag != POSITIONS as u64 {
        return true;
    }
    let list: u64 = lists(font, k);
    let n: u64 = word(font, list);
    let mut l: u64 = 0;
    while l < n
        invariant
            l <= n <= 0xffff,
            k <= 0xffff,
            tag == table_tag(font@, k as int),
            tag == SUBSTITUTIONS || tag == POSITIONS,
            list <= 0x1_0001_0000,
            list == lookups_at(font@, k as int),
            n == word_at(font@, list as int),
            forall|j: int| 0 <= j < l ==> #[trigger] lookup_sound(font@, k as int, j),
        decreases n - l,
    {
        if !sound_lookup(font, k, l, list) {
            assert(!lookup_sound(font@, k as int, l as int));
            return false;
        }
        l += 1;
    }
    true
}

/// Whether all lookups of a font can be applied.
pub fn applies(font: &Vec<u8>) -> (r: bool)
    ensures
        r == font_applies(font@),
{
    let n: u64 = word(font, 4);
    let mut k: u64 = 0;
    while k < n
        invariant
            k <= n <= 0xffff,
            n == table_count(font@),
            forall|j: int| 0 <= j < k ==> #[trigger] table_applies(font@, j),
        decreases n - k,
    {
        if !applies_table(font, k) {
            return false;
        }
        k += 1;
    }
    true
}

/// Whether a table has a lookup that joins several glyphs into one.
pub open spec fn table_joins(b: Seq<u8>, k: int) -> bool {
    table_tag(b, k) == SUBSTITUTIONS && exists|l: int|
        0 <= l < word_at(b, lookups_at(b, k)) && #[trigger] lookup_kind(b, k, l) == 4
}

/// Whether a font has a lookup that joins several glyphs into one.
pub open spec fn font_joins(b: Seq<u8>) -> bool {
    exists|k: int| 0 <= k < table_count(b) && #[trigger] table_joins(b, k)
}

fn joins_table(font: &Vec<u8>, k: u64) -> (r: bool)
    requires
        k <= 0xffff,
    ensures
        r == table_joins(font@, k as int),
{
    let tag: u64 = long(font, 12 + 16 * k);
    assert(tag == table_tag(font@, k as int));
    if tag != SUBSTITUTIONS as u64 {
        return false;
    }
    let list: u64 = lists(font, k);
    let n: u64 = word(font, list);
    let mut l: u64 = 0;
    while l < n
        invariant
            l <= n <= 0xffff,
            list <= 0x1_0001_0000,
            tag == table_tag(font@, k as int),
            tag == SUBSTITUTIONS,
            list == lookups_at(font@, k as int),
            n == word_at(font@, list as int),
            forall|j: int| 0 <= j < l ==> #[trigger] lookup_kind(font@, k as int, j) != 4,
        decreases n - l,
    {
        let kind: u64 = word(font, list + word(font, list + 2 + 2 * l));
        assert(kind == lookup_kind(font@, k as int, l as int));
        if kind == 4 {
            return true;
        }
        l += 1;
    }
    false
}

/// Whether a font has a lookup that joins several glyphs into one.
pub fn joins(font: &Vec<u8>) -> (r: bool)
    ensures
        r == font_joins(font@),
{
    let n: u64 = word(font, 4);
    let mut k: u64 = 0;
    while k < n
        invariant
            k <= n <= 0xffff,
            n == table_count(font@),
            forall|j: int| 0 <= j < k ==> !#[trigger] table_joins(font@, j),
        decreases n - k,
    {
        if joins_table(font, k) {
            return true;
        }
        k += 1;
    }
    false
}

/// How often a table may move each glyph: once for each lookup of a table of positions and for each part
/// of a table of kerning.
pub open spec fn table_moves(b: Seq<u8>, k: int) -> int {
    if table_tag(b, k) == POSITIONS {
        word_at(b, lookups_at(b, k))
    } else if table_tag(b, k) == KERNING {
        word_at(b, table_at(b, k) + 2)
    } else {
        0
    }
}

/// How often the first `n` tables may move each glyph.
pub open spec fn moves_in(b: Seq<u8>, n: int) -> int
    decreases n,
{
    if n <= 0 {
        0
    } else {
        moves_in(b, n - 1) + table_moves(b, n - 1)
    }
}

/// How often a font may move each glyph.
pub open spec fn font_moves(b: Seq<u8>) -> int {
    moves_in(b, table_count(b))
}

fn moves_table(font: &Vec<u8>, k: u64) -> (r: u64)
    requires
        k <= 0xffff,
    ensures
        r == table_moves(font@, k as int),
        r <= 0xffff,
{
    let tag: u64 = long(font, 12 + 16 * k);
    assert(tag == table_tag(font@, k as int));
    if tag == POSITIONS as u64 {
        word(font, lists(font, k))
    } else if tag == KERNING as u64 {
        word(font, long(font, 12 + 16 * k + 8) + 2)
    } else {
        0
    }
}

/// How often a font may move each glyph.
pub fn moves(font: &Vec<u8>) -> (r: u64)
    ensures
        r == font_moves(font@),
        r <= 0xfffe_0001,
{
    let n: u64 = word(font, 4);
    let mut r: u64 = 0;
    let mut k: u64 = 0;
    while k < n
        invariant
            k <= n <= 0xffff,
            n == table_count(font@),
            r == moves_in(font@, k as int),
            r <= 0xffff * k,
        decreases n - k,
    {
        r += moves_table(font, k);
        k += 1;
    }
    r
}

/// A font without tables of substitutions, positions and kerning has every lookup that it has applied,
/// joins no glyphs and moves none.
pub proof fn law_plain_fonts_apply(b: Seq<u8>)
    requires
        forall|k: int|
            0 <= k < table_count(b) ==> (#[trigger] table_tag(b, k)) != SUBSTITUTIONS && table_tag(b, k)
                != POSITIONS && table_tag(b, k) != KERNING,
    ensures
        font_applies(b),
        !font_joins(b),
        font_moves(b) == 0,
{
    lemma_none_move(b, table_count(b));
}

proof fn lemma_none_move(b: Seq<u8>, n: int)
    requires
        n <= table_count(b),
        forall|k: int|
            0 <= k < table_count(b) ==> (#[trigger] table_tag(b, k)) != POSITIONS && table_tag(b, k)
                != KERNING,
    ensures
        moves_in(b, n) == 0,
    decreases n,
{
    if n > 0 {
        lemma_none_move(b, n - 1);
    }
}

}
