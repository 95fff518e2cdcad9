//! Lettering: the outlines of a text, set in a font.
//!
//! The shaper picks the glyphs of a text and says where each stands. The outlines of the glyphs are
//! curves in font units: they are flattened into line segments, scaled, placed and aligned here.

use rustybuzz::ttf_parser::Tag;
use rustybuzz::{Face, Script, UnicodeBuffer};
use vstd::prelude::*;
use vstd::utf8::*;

use crate::chars::{chars_of, same};
use crate::font::{boxes_fit, fits_boxes, fits_text, font_sound, is_sound, text_fits};
use crate::geo::Contour;
use crate::geom::Vec2;
use crate::lookups::{applies, font_applies};
use crate::num::{
    ask, counts, equal, exact_to, is_nan, less, nan, negate, negated, num_eq, num_lt, size, to_u32, to_unsigned, unit, unit_ok,
    FloatOp, ONE, ZERO,
};
use crate::primitives::{Lettering, TextParams};

verus! {

/// Two.
pub const TWO: u64 = 0x4000_0000_0000_0000;

/// Three.
pub const THREE: u64 = 0x4008_0000_0000_0000;

/// Eight.
pub const EIGHT: u64 = 0x4020_0000_0000_0000;

/// A hundred seventy-seconds: a letter size is a hundred units at 72 to the inch.
pub const DPI_SCALE: u64 = 0x3ff6_38e3_8e38_e38e;

/// The way a text runs.
#[derive(Debug, Clone, Copy, PartialEq, Eq, Structural)]
pub enum Direction {
    LeftToRight,
    RightToLeft,
    TopToBottom,
    BottomToTop,
}

impl Direction {
    /// The word for a direction.
    pub open spec fn named(self) -> Seq<char> {
        match self {
            Direction::LeftToRight => "ltr"@,
            Direction::RightToLeft => "rtl"@,
            Direction::TopToBottom => "ttb"@,
            Direction::BottomToTop => "btt"@,
        }
    }

    /// The word for a direction.
    pub fn word(self) -> (r: &'static str)
        ensures
            r@ == self.named(),
    {
        match self {
            Direction::LeftToRight => "ltr",
            Direction::RightToLeft => "rtl",
            Direction::TopToBottom => "ttb",
            Direction::BottomToTop => "btt",
        }
    }
}

/// The direction that a word names.
pub open spec fn direction_of(word: Seq<char>) -> Option<Direction> {
    if word == "ltr"@ {
        Some(Direction::LeftToRight)
    } else if word == "rtl"@ {
        Some(Direction::RightToLeft)
    } else if word == "ttb"@ {
        Some(Direction::TopToBottom)
    } else if word == "btt"@ {
        Some(Direction::BottomToTop)
    } else {
        None
    }
}

/// The direction that a word names; a word that names none leaves the guess standing.
pub fn parse_direction(dir: &str) -> (r: Option<Direction>)
    ensures
        r == direction_of(dir@),
{
    if same(dir, "ltr") {
        Some(Direction::LeftToRight)
    } else if same(dir, "rtl") {
        Some(Direction::RightToLeft)
    } else if same(dir, "ttb") {
        Some(Direction::TopToBottom)
    } else if same(dir, "btt") {
        Some(Direction::BottomToTop)
    } else {
        None
    }
}

/// A word names a direction if and only if it is the word for that direction.
pub proof fn law_words_name_directions(word: Seq<char>, d: Direction)
    ensures
        direction_of(word) == Some(d) <==> word == d.named(),
{
    reveal_strlit("ltr");
    reveal_strlit("rtl");
    reveal_strlit("ttb");
    reveal_strlit("btt");
    assert("ltr"@[0] == 'l' && "rtl"@[0] == 'r' && "ttb"@[0] == 't' && "btt"@[0] == 'b');
}

/// The four bytes of a tag as one number, the first the highest.
pub open spec fn tag_number(bytes: Seq<u8>) -> int {
    bytes[0] * 0x100_0000 + bytes[1] * 0x1_0000 + bytes[2] * 0x100 + bytes[3]
}

/// The tag that names a script: its four bytes. A name of another length is no tag, and the tag of
/// four zero bytes names no script.
pub open spec fn script_of(script: Seq<char>) -> Option<u32> {
    let bytes = encode_utf8(script);
    if bytes.len() == 4 && tag_number(bytes) != 0 {
        Some(tag_number(bytes) as u32)
    } else {
        None
    }
}

/// The tag that names a script.
pub fn script_tag(script: &str) -> (r: Option<u32>)
    ensures
        r == script_of(script@),
{
    let bytes = script.as_bytes();
    if bytes.len() == 4 {
        let high: u32 = bytes[0] as u32 * 0x100_0000 + bytes[1] as u32 * 0x1_0000;
        let low: u32 = bytes[2] as u32 * 0x100 + bytes[3] as u32;
        if high + low != 0 {
            Some(high + low)
        } else {
            None
        }
    } else {
        None
    }
}

/// A glyph of a shaped text: which it is, how far it stands from the pen, and how far the pen goes on.
#[derive(Debug, Clone, Copy, PartialEq, Eq, Structural)]
pub struct Glyph {
    pub id: u32,
    pub x_offset: i32,
    pub y_offset: i32,
    pub x_advance: i32,
    pub y_advance: i32,
}

fn glyph(id: u32, x_offset: i32, y_offset: i32, x_advance: i32, y_advance: i32) -> (r: Glyph)
    ensures
        r == (Glyph { id, x_offset, y_offset, x_advance, y_advance }),
{
    Glyph { id, x_offset, y_offset, x_advance, y_advance }
}

/// The units that an em of a font is divided into. Nothing where the bytes are no font.
pub uninterp spec fn units_of(font: Seq<u8>) -> Option<u16>;

/// `ttf_parser::Face::parse` of the first face and its `units_per_em`: a function of the bytes. It
/// is nothing where they do not parse. A font is left out where a list that the parser reads may be
/// longer than it can count the bytes of.
#[verifier::external_body]
fn units_per_em(font: &Vec<u8>) -> (r: Option<u16>)
    requires
        font_sound(font@),
    ensures
        r == units_of(font@),
{
    rustybuzz::ttf_parser::Face::parse(font, 0).ok().map(|face| face.units_per_em())
}

/// How far a font reaches above the baseline. Nothing where the bytes are no font.
pub uninterp spec fn ascender_of(font: Seq<u8>) -> Option<i16>;

/// `ttf_parser::Face::parse` of the first face and its `ascender`: a function of the bytes. It is
/// nothing where they do not parse. A font that varies along axes is left out: the sums of its
/// variations are not bounded.
#[verifier::external_body]
fn ascender(font: &Vec<u8>) -> (r: Option<i16>)
    requires
        font_sound(font@),
    ensures
        r == ascender_of(font@),
{
    rustybuzz::ttf_parser::Face::parse(font, 0).ok().map(|face| face.ascender())
}

/// How far a font reaches below the baseline, negative. Nothing where the bytes are no font.
pub uninterp spec fn descender_of(font: Seq<u8>) -> Option<i16>;

/// `ttf_parser::Face::parse` of the first face and its `descender`: a function of the bytes. It is
/// nothing where they do not parse. A font that varies along axes is left out, for its sums, and one
/// whose depth is the one number that cannot be negated.
#[verifier::external_body]
fn descender(font: &Vec<u8>) -> (r: Option<i16>)
    requires
        font_sound(font@),
    ensures
        r == descender_of(font@),
{
    rustybuzz::ttf_parser::Face::parse(font, 0).ok().map(|face| face.descender())
}

/// The glyphs of a text in a font, in the order in which the pen draws them. Nothing where the
/// bytes are no font.
pub uninterp spec fn shaped(
    font: Seq<u8>,
    text: Seq<char>,
    direction: Option<Seq<char>>,
    script: Option<u32>,
    language: Option<Seq<char>>,
) -> Option<Seq<Glyph>>;

/// Whether the height of a font, from its descender to its ascender, fits a machine integer. The
/// shaper subtracts one from the other where a text runs from top to bottom.
pub open spec fn height_fits(font: Seq<u8>) -> bool {
    match (ascender_of(font), descender_of(font)) {
        (Some(a), Some(d)) => i16::MIN <= a - d <= i16::MAX,
        _ => true,
    }
}

/// The view of an optional text.
pub open spec fn maybe_text(s: Option<&str>) -> Option<Seq<char>> {
    match s {
        Some(s) => Some(s@),
        None => None,
    }
}

/// The view of an optional list of glyphs.
pub open spec fn maybe_glyphs(g: Option<Vec<Glyph>>) -> Option<Seq<Glyph>> {
    match g {
        Some(g) => Some(g@),
        None => None,
    }
}

/// Whether a font can be shaped with: its tables can be read, its lookups can be applied, and the boxes
/// of its outlines and its height fit machine integers.
pub open spec fn font_shapes(font: Seq<u8>) -> bool {
    font_sound(font) && font_applies(font) && boxes_fit(font) && height_fits(font)
}

/// Whether every character of a text is of the first 128.
pub open spec fn ascii(s: Seq<char>) -> bool {
    forall|i: int| 0 <= i < s.len() ==> (#[trigger] s[i] as u32) < 0x80
}

/// Whether every character of a text is of the first 128.
fn is_ascii(s: &str) -> (r: bool)
    ensures
        r == ascii(s@),
{
    let cs: Vec<char> = chars_of(s);
    let mut i: usize = 0;
    while i < cs.len()
        invariant
            i <= cs@.len(),
            cs@ == s@,
            forall|j: int| 0 <= j < i ==> (#[trigger] cs@[j] as u32) < 0x80,
        decreases cs@.len() - i,
    {
        if cs[i] as u32 >= 0x80 {
            assert(!((s@[i as int] as u32) < 0x80));
            return false;
        }
        i = i + 1;
    }
    true
}

/// `rustybuzz::shape` with no features, on a buffer that holds the text with its properties guessed
/// and then the given ones set: a function of its arguments. It is nothing where
/// `rustybuzz::Face::from_slice` finds no face. A direction is read by its first letter, a script by
/// its tag, a language as it is written; one that does not parse leaves the guess standing. Left out
/// are fonts whose tables, lookups or measures hold what the shaper cannot count or add up, texts
/// whose glyphs may be too many to add up where they stand or to count the parts of, texts whose
/// syllables may grow past what it counts in a byte, and languages in other characters than the first
/// 128, which it takes apart by bytes.
#[verifier::external_body]
fn shape(
    font: &Vec<u8>,
    text: &str,
    direction: Option<&str>,
    script: Option<u32>,
    language: Option<&str>,
) -> (r: Option<Vec<Glyph>>)
    requires
        font_shapes(font@),
        text_fits(font@, text@, script),
        language matches Some(l) ==> ascii(l@),
    ensures
        maybe_glyphs(r) == shaped(font@, text@, maybe_text(direction), script, maybe_text(language)),
{
    let face = Face::from_slice(font, 0)?;
    let mut buffer = UnicodeBuffer::new();
    buffer.push_str(text);
    buffer.guess_segment_properties();
    direction.map(|d| d.parse().map(|d| buffer.set_direction(d)));
    script.map(|t| Script::from_iso15924_tag(Tag(t)).map(|s| buffer.set_script(s)));
    language.map(|l| l.parse().map(|l| buffer.set_language(l)));
    let out = rustybuzz::shape(&face, &[], buffer);
    Some(out.glyph_infos().iter().zip(out.glyph_positions()).map(
        |(i, p)| glyph(i.glyph_id, p.x_offset, p.y_offset, p.x_advance, p.y_advance)).collect())
}

/// A piece of a glyph's outline. Coordinates are in font units.
#[derive(Debug, Clone, Copy)]
pub enum Segment {
    /// A ring begins.
    Move(Vec2),
    Line(Vec2),
    /// A curve with one control point.
    Quad(Vec2, Vec2),
    /// A curve with two control points.
    Curve(Vec2, Vec2, Vec2),
    /// The ring is closed.
    Close,
}

/// Outlines can be asked for any glyph, and each glyph has one.
pub open spec fn outlines_ok<O: Fn(u16) -> Vec<Segment>>(o: O) -> bool {
    &&& forall|id: u16| call_requires(o, (id,))
    &&& forall|id: u16, r: Vec<Segment>, s: Vec<Segment>|
        call_ensures(o, (id,), r) && call_ensures(o, (id,), s) ==> r@ == s@
}

/// The outline of a glyph.
pub open spec fn outline_of<O: Fn(u16) -> Vec<Segment>>(o: O, id: u16) -> Seq<Segment> {
    (choose|r: Vec<Segment>| call_ensures(o, (id,), r))@
}

/// Outlines as a mathematical function.
pub open spec fn outlines<O: Fn(u16) -> Vec<Segment>>(o: O) -> spec_fn(u16) -> Seq<Segment> {
    |id: u16| outline_of(o, id)
}

fn outline<O: Fn(u16) -> Vec<Segment>>(o: &O, id: u16) -> (r: Vec<Segment>)
    requires
        outlines_ok(*o),
    ensures
        r@ == outlines(*o)(id),
{
    o(id)
}

/// Rings of points, mathematically.
pub open spec fn rings(cs: Seq<Contour>) -> Seq<Seq<Vec2>> {
    Seq::new(cs.len(), |i: int| cs[i]@)
}

/// A product of three.
pub open spec fn times3(a: u64, b: u64, c: u64, f: spec_fn(FloatOp, u64, u64) -> u64) -> u64 {
    f(FloatOp::Mul, f(FloatOp::Mul, a, b), c)
}

/// A product of four.
pub open spec fn times4(a: u64, b: u64, c: u64, d: u64, f: spec_fn(FloatOp, u64, u64) -> u64) -> u64 {
    f(FloatOp::Mul, times3(a, b, c, f), d)
}

fn mul3<F: Fn(FloatOp, u64, u64) -> u64>(a: u64, b: u64, c: u64, fpu: &F) -> (r: u64)
    requires
        unit_ok(*fpu),
    ensures
        r == times3(a, b, c, unit(*fpu)),
{
    ask(fpu, FloatOp::Mul, ask(fpu, FloatOp::Mul, a, b), c)
}

fn mul4<F: Fn(FloatOp, u64, u64) -> u64>(a: u64, b: u64, c: u64, d: u64, fpu: &F) -> (r: u64)
    requires
        unit_ok(*fpu),
    ensures
        r == times4(a, b, c, d, unit(*fpu)),
{
    ask(fpu, FloatOp::Mul, mul3(a, b, c, fpu), d)
}

/// A coordinate of a curve with one control point:
/// `(1-t)^2 p0 + 2 (1-t) t c + t^2 p1`.
pub open spec fn quad_at(
    t: u64,
    p0: u64,
    c: u64,
    p1: u64,
    f: spec_fn(FloatOp, u64, u64) -> u64,
) -> u64 {
    let mt = f(FloatOp::Sub, ONE, t);
    f(
        FloatOp::Add,
        f(FloatOp::Add, times3(mt, mt, p0, f), times4(TWO, mt, t, c, f)),
        times3(t, t, p1, f),
    )
}

fn quad<F: Fn(FloatOp, u64, u64) -> u64>(t: u64, p0: u64, c: u64, p1: u64, fpu: &F) -> (r: u64)
    requires
        unit_ok(*fpu),
    ensures
        r == quad_at(t, p0, c, p1, unit(*fpu)),
{
    let mt: u64 = ask(fpu, FloatOp::Sub, ONE, t);
    ask(
        fpu,
        FloatOp::Add,
        ask(fpu, FloatOp::Add, mul3(mt, mt, p0, fpu), mul4(TWO, mt, t, c, fpu)),
        mul3(t, t, p1, fpu),
    )
}

/// A coordinate of a curve with two control points:
/// `(1-t)^3 p0 + 3 (1-t)^2 t c1 + 3 (1-t) t^2 c2 + t^3 p1`.
pub open spec fn cubic_at(
    t: u64,
    p0: u64,
    c1: u64,
    c2: u64,
    p1: u64,
    f: spec_fn(FloatOp, u64, u64) -> u64,
) -> u64 {
    let mt = f(FloatOp::Sub, ONE, t);
    let near = f(FloatOp::Mul, times4(THREE, mt, mt, t, f), c1);
    let far = f(FloatOp::Mul, times4(THREE, mt, t, t, f), c2);
    f(
        FloatOp::Add,
        f(FloatOp::Add, f(FloatOp::Add, times4(mt, mt, mt, p0, f), near), far),
        times4(t, t, t, p1, f),
    )
}

fn cubic<F: Fn(FloatOp, u64, u64) -> u64>(
    t: u64,
    p0: u64,
    c1: u64,
    c2: u64,
    p1: u64,
    fpu: &F,
) -> (r: u64)
    requires
        unit_ok(*fpu),
    ensures
        r == cubic_at(t, p0, c1, c2, p1, unit(*fpu)),
{
    let mt: u64 = ask(fpu, FloatOp::Sub, ONE, t);
    let near: u64 = ask(fpu, FloatOp::Mul, mul4(THREE, mt, mt, t, fpu), c1);
    let far: u64 = ask(fpu, FloatOp::Mul, mul4(THREE, mt, t, t, fpu), c2);
    ask(
        fpu,
        FloatOp::Add,
        ask(fpu, FloatOp::Add, ask(fpu, FloatOp::Add, mul4(mt, mt, mt, p0, fpu), near), far),
        mul4(t, t, t, p1, fpu),
    )
}

/// How far along a curve its `i`-th point of `segs` stands.
pub open spec fn along(i: int, segs: u32, f: spec_fn(FloatOp, u64, u64) -> u64) -> u64 {
    f(FloatOp::Div, f(FloatOp::FromInt, i as u64, 0), f(FloatOp::FromInt, segs as u64, 0))
}

/// Where and how large a glyph is drawn, and how many segments make a curve.
#[derive(Debug, Clone, Copy)]
pub struct Placing {
    pub origin_x: u64,
    pub origin_y: u64,
    pub scale: u64,
    pub curve_segs: u32,
}

/// A point in font units, placed and scaled.
pub open spec fn placed(at: Placing, p: Vec2, f: spec_fn(FloatOp, u64, u64) -> u64) -> Vec2 {
    Vec2 {
        x: f(FloatOp::Add, at.origin_x, f(FloatOp::Mul, p.x, at.scale)),
        y: f(FloatOp::Add, at.origin_y, f(FloatOp::Mul, p.y, at.scale)),
    }
}

/// The `i`-th point of a curve with one control point, in font units.
pub open spec fn quad_point(
    t: u64,
    p0: Vec2,
    c: Vec2,
    p1: Vec2,
    f: spec_fn(FloatOp, u64, u64) -> u64,
) -> Vec2 {
    Vec2 { x: quad_at(t, p0.x, c.x, p1.x, f), y: quad_at(t, p0.y, c.y, p1.y, f) }
}

/// A point of a curve with two control points, in font units.
pub open spec fn cubic_point(
    t: u64,
    p0: Vec2,
    c1: Vec2,
    c2: Vec2,
    p1: Vec2,
    f: spec_fn(FloatOp, u64, u64) -> u64,
) -> Vec2 {
    Vec2 {
        x: cubic_at(t, p0.x, c1.x, c2.x, p1.x, f),
        y: cubic_at(t, p0.y, c1.y, c2.y, p1.y, f),
    }
}

/// The first `n` flattened points of a curve with one control point.
pub open spec fn quad_points(
    at: Placing,
    p0: Vec2,
    c: Vec2,
    p1: Vec2,
    n: nat,
    f: spec_fn(FloatOp, u64, u64) -> u64,
) -> Seq<Vec2> {
    Seq::new(n, |i: int| placed(at, quad_point(along(i + 1, at.curve_segs, f), p0, c, p1, f), f))
}

/// The first `n` flattened points of a curve with two control points.
pub open spec fn cubic_points(
    at: Placing,
    p0: Vec2,
    c1: Vec2,
    c2: Vec2,
    p1: Vec2,
    n: nat,
    f: spec_fn(FloatOp, u64, u64) -> u64,
) -> Seq<Vec2> {
    Seq::new(
        n,
        |i: int| placed(at, cubic_point(along(i + 1, at.curve_segs, f), p0, c1, c2, p1, f), f),
    )
}

/// An outline as far as it is traced: the rings that are closed, the ring that is open, and the pen
/// in font units.
pub struct Traced {
    pub done: Seq<Seq<Vec2>>,
    pub open: Seq<Vec2>,
    pub last: Vec2,
}

/// Nothing traced yet.
pub open spec fn untraced() -> Traced {
    Traced { done: Seq::empty(), open: Seq::empty(), last: Vec2 { x: ZERO, y: ZERO } }
}

/// The open ring closed; an empty ring is none.
pub open spec fn closed(t: Traced) -> Traced {
    if t.open.len() == 0 {
        t
    } else {
        Traced { done: t.done.push(t.open), open: Seq::empty(), last: t.last }
    }
}

/// One more piece traced.
pub open spec fn stroke(
    at: Placing,
    t: Traced,
    s: Segment,
    f: spec_fn(FloatOp, u64, u64) -> u64,
) -> Traced {
    let segs = at.curve_segs as nat;
    match s {
        Segment::Move(p) => Traced {
            done: closed(t).done,
            open: seq![placed(at, p, f)],
            last: p,
        },
        Segment::Line(p) => Traced { done: t.done, open: t.open.push(placed(at, p, f)), last: p },
        Segment::Quad(c, p) => Traced {
            done: t.done,
            open: t.open + quad_points(at, t.last, c, p, segs, f),
            last: p,
        },
        Segment::Curve(c1, c2, p) => Traced {
            done: t.done,
            open: t.open + cubic_points(at, t.last, c1, c2, p, segs, f),
            last: p,
        },
        Segment::Close => closed(t),
    }
}

/// The first `n` pieces of an outline traced.
pub open spec fn traced(
    at: Placing,
    segs: Seq<Segment>,
    n: nat,
    f: spec_fn(FloatOp, u64, u64) -> u64,
) -> Traced
    decreases n,
{
    if n == 0 {
        untraced()
    } else {
        stroke(at, traced(at, segs, (n - 1) as nat, f), segs[n - 1], f)
    }
}

/// The rings of a glyph.
pub open spec fn glyph_rings(
    at: Placing,
    segs: Seq<Segment>,
    f: spec_fn(FloatOp, u64, u64) -> u64,
) -> Seq<Seq<Vec2>> {
    closed(traced(at, segs, segs.len(), f)).done
}

/// Flattens the outline of a glyph into rings of placed and scaled points.
#[derive(Debug)]
pub struct OutlineCollector {
    pub at: Placing,
    pub contours: Vec<Contour>,
    pub current: Contour,
    pub last: Vec2,
}

impl OutlineCollector {
    /// What is traced so far.
    pub open spec fn trace(&self) -> Traced {
        Traced { done: rings(self.contours@), open: self.current@, last: self.last }
    }

    /// A collector with nothing traced.
    pub fn new(origin_x: u64, origin_y: u64, scale: u64, curve_segs: u32) -> (r: OutlineCollector)
        ensures
            r.at == (Placing { origin_x, origin_y, scale, curve_segs }),
            r.trace() == untraced(),
    {
        let r = OutlineCollector {
            at: Placing { origin_x, origin_y, scale, curve_segs },
            contours: Vec::new(),
            current: Vec::new(),
            last: Vec2::new(ZERO, ZERO),
        };
        assert(r.trace().done =~= untraced().done);
        assert(r.trace().open =~= untraced().open);
        r
    }

    /// A point in font units, placed and scaled.
    pub fn place<F: Fn(FloatOp, u64, u64) -> u64>(&self, p: Vec2, fpu: &F) -> (r: Vec2)
        requires
            unit_ok(*fpu),
        ensures
            r == placed(self.at, p, unit(*fpu)),
    {
        Vec2::new(
            ask(fpu, FloatOp::Add, self.at.origin_x, ask(fpu, FloatOp::Mul, p.x, self.at.scale)),
            ask(fpu, FloatOp::Add, self.at.origin_y, ask(fpu, FloatOp::Mul, p.y, self.at.scale)),
        )
    }

    /// Closes the open ring.
    pub fn close(&mut self)
        ensures
            final(self).at == old(self).at,
            final(self).trace() == closed(old(self).trace()),
    {
        if self.current.len() > 0 {
            let ghost was = self.contours@;
            let mut ring: Contour = Vec::new();
            std::mem::swap(&mut ring, &mut self.current);
            self.contours.push(ring);
            assert(rings(self.contours@) =~= rings(was).push(ring@));
            assert(self.current@ =~= Seq::empty());
        }
    }

    /// Begins a ring at a point.
    pub fn move_to<F: Fn(FloatOp, u64, u64) -> u64>(&mut self, p: Vec2, fpu: &F)
        requires
            unit_ok(*fpu),
        ensures
            final(self).at == old(self).at,
            final(self).trace() == stroke(old(self).at, old(self).trace(), Segment::Move(p), unit(*fpu)),
    {
        self.close();
        let q = self.place(p, fpu);
        self.current.push(q);
        self.last = p;
        assert(self.current@ =~= seq![q]);
    }

    /// Draws a line to a point.
    pub fn line_to<F: Fn(FloatOp, u64, u64) -> u64>(&mut self, p: Vec2, fpu: &F)
        requires
            unit_ok(*fpu),
        ensures
            final(self).at == old(self).at,
            final(self).trace() == stroke(old(self).at, old(self).trace(), Segment::Line(p), unit(*fpu)),
    {
        let q = self.place(p, fpu);
        self.current.push(q);
        self.last = p;
    }

    /// How far along a curve its `i`-th point stands.
    fn fraction<F: Fn(FloatOp, u64, u64) -> u64>(&self, i: u32, fpu: &F) -> (r: u64)
        requires
            unit_ok(*fpu),
        ensures
            r == along(i as int, self.at.curve_segs, unit(*fpu)),
    {
        let part: u64 = ask(fpu, FloatOp::FromInt, i as u64, 0);
        let all: u64 = ask(fpu, FloatOp::FromInt, self.at.curve_segs as u64, 0);
        ask(fpu, FloatOp::Div, part, all)
    }

    /// Draws a curve with one control point.
    pub fn quad_to<F: Fn(FloatOp, u64, u64) -> u64>(&mut self, c: Vec2, p: Vec2, fpu: &F)
        requires
            unit_ok(*fpu),
        ensures
            final(self).at == old(self).at,
            final(self).trace() == stroke(
                old(self).at,
                old(self).trace(),
                Segment::Quad(c, p),
                unit(*fpu),
            ),
    {
        let p0 = self.last;
        let ghost f = unit(*fpu);
        let ghost at = self.at;
        let ghost drawn = self.current@;
        let mut i: u32 = 0;
        assert(self.current@ =~= drawn + quad_points(at, p0, c, p, 0, f));
        while i < self.at.curve_segs
            invariant
                i <= self.at.curve_segs,
                unit_ok(*fpu),
                f == unit(*fpu),
                at == old(self).at,
                self.at == at,
                self.contours == old(self).contours,
                self.last == p0,
                p0 == old(self).last,
                drawn == old(self).current@,
                self.current@ =~= drawn + quad_points(at, p0, c, p, i as nat, f),
            decreases self.at.curve_segs - i,
        {
            i = i + 1;
            let t: u64 = self.fraction(i, fpu);
            let q = Vec2::new(quad(t, p0.x, c.x, p.x, fpu), quad(t, p0.y, c.y, p.y, fpu));
            let q = self.place(q, fpu);
            self.current.push(q);
        }
        self.last = p;
    }

    /// Draws a curve with two control points.
    pub fn curve_to<F: Fn(FloatOp, u64, u64) -> u64>(&mut self, c1: Vec2, c2: Vec2, p: Vec2, fpu: &F)
        requires
            unit_ok(*fpu),
        ensures
            final(self).at == old(self).at,
            final(self).trace() == stroke(
                old(self).at,
                old(self).trace(),
                Segment::Curve(c1, c2, p),
                unit(*fpu),
            ),
    {
        let p0 = self.last;
        let ghost f = unit(*fpu);
        let ghost at = self.at;
        let ghost drawn = self.current@;
        let mut i: u32 = 0;
        assert(self.current@ =~= drawn + cubic_points(at, p0, c1, c2, p, 0, f));
        while i < self.at.curve_segs
            invariant
                i <= self.at.curve_segs,
                unit_ok(*fpu),
                f == unit(*fpu),
                at == old(self).at,
                self.at == at,
                self.contours == old(self).contours,
                self.last == p0,
                p0 == old(self).last,
                drawn == old(self).current@,
                self.current@ =~= drawn + cubic_points(at, p0, c1, c2, p, i as nat, f),
            decreases self.at.curve_segs - i,
        {
            i = i + 1;
            let t: u64 = self.fraction(i, fpu);
            let q = Vec2::new(
                cubic(t, p0.x, c1.x, c2.x, p.x, fpu),
                cubic(t, p0.y, c1.y, c2.y, p.y, fpu),
            );
            let q = self.place(q, fpu);
            self.current.push(q);
        }
        self.last = p;
    }

    /// Draws one piece of an outline.
    pub fn draw<F: Fn(FloatOp, u64, u64) -> u64>(&mut self, s: Segment, fpu: &F)
        requires
            unit_ok(*fpu),
        ensures
            final(self).at == old(self).at,
            final(self).trace() == stroke(old(self).at, old(self).trace(), s, unit(*fpu)),
    {
        match s {
            Segment::Move(p) => self.move_to(p, fpu),
            Segment::Line(p) => self.line_to(p, fpu),
            Segment::Quad(c, p) => self.quad_to(c, p, fpu),
            Segment::Curve(c1, c2, p) => self.curve_to(c1, c2, p, fpu),
            Segment::Close => self.close(),
        }
    }

    /// The rings, the open one closed.
    pub fn finish(self) -> (r: Vec<Contour>)
        ensures
            rings(r@) == closed(self.trace()).done,
    {
        let mut me = self;
        me.close();
        me.contours
    }
}

/// The rings of a glyph.
fn collect<F: Fn(FloatOp, u64, u64) -> u64>(at: Placing, segs: &Vec<Segment>, fpu: &F) -> (r: Vec<
    Contour,
>)
    requires
        unit_ok(*fpu),
    ensures
        rings(r@) == glyph_rings(at, segs@, unit(*fpu)),
{
    let mut c = OutlineCollector::new(at.origin_x, at.origin_y, at.scale, at.curve_segs);
    let mut i: usize = 0;
    while i < segs.len()
        invariant
            i <= segs.len(),
            unit_ok(*fpu),
            c.at == at,
            c.trace() == traced(at, segs@, i as nat, unit(*fpu)),
        decreases segs.len() - i,
    {
        c.draw(segs[i], fpu);
        i = i + 1;
    }
    c.finish()
}

/// A signed machine integer as a number.
pub open spec fn int_num(i: int, f: spec_fn(FloatOp, u64, u64) -> u64) -> u64 {
    f(FloatOp::FromInt, (i as i64) as u64, 0)
}

fn from_i32<F: Fn(FloatOp, u64, u64) -> u64>(i: i32, fpu: &F) -> (r: u64)
    requires
        unit_ok(*fpu),
    ensures
        r == int_num(i as int, unit(*fpu)),
{
    let wide: i64 = i as i64;
    ask(fpu, FloatOp::FromInt, wide as u64, 0)
}

/// The pen after the first `n` glyphs, in font units.
pub open spec fn pen(
    glyphs: Seq<Glyph>,
    spacing: u64,
    n: nat,
    f: spec_fn(FloatOp, u64, u64) -> u64,
) -> Vec2
    decreases n,
{
    if n == 0 {
        Vec2 { x: ZERO, y: ZERO }
    } else {
        let was = pen(glyphs, spacing, (n - 1) as nat, f);
        let g = glyphs[n - 1];
        Vec2 {
            x: f(FloatOp::Add, was.x, f(FloatOp::Mul, int_num(g.x_advance as int, f), spacing)),
            y: f(FloatOp::Add, was.y, f(FloatOp::Mul, int_num(g.y_advance as int, f), spacing)),
        }
    }
}

/// The glyph of a font that stands for a shaped one; one that is out of range is the missing glyph.
pub open spec fn glyph_id(id: u32) -> u16 {
    if id <= u16::MAX {
        id as u16
    } else {
        0
    }
}

/// Where a glyph is drawn.
pub open spec fn glyph_place(
    g: Glyph,
    pen: Vec2,
    scale: u64,
    curve_segs: u32,
    f: spec_fn(FloatOp, u64, u64) -> u64,
) -> Placing {
    Placing {
        origin_x: f(
            FloatOp::Mul,
            f(FloatOp::Add, pen.x, int_num(g.x_offset as int, f)),
            scale,
        ),
        origin_y: f(
            FloatOp::Mul,
            f(FloatOp::Add, pen.y, int_num(g.y_offset as int, f)),
            scale,
        ),
        scale,
        curve_segs,
    }
}

/// The rings of the first `n` glyphs, before they are aligned.
pub open spec fn text_rings(
    glyphs: Seq<Glyph>,
    spacing: u64,
    scale: u64,
    curve_segs: u32,
    o: spec_fn(u16) -> Seq<Segment>,
    n: nat,
    f: spec_fn(FloatOp, u64, u64) -> u64,
) -> Seq<Seq<Vec2>>
    decreases n,
{
    if n == 0 {
        Seq::empty()
    } else {
        let g = glyphs[n - 1];
        let at = glyph_place(g, pen(glyphs, spacing, (n - 1) as nat, f), scale, curve_segs, f);
        text_rings(glyphs, spacing, scale, curve_segs, o, (n - 1) as nat, f) + glyph_rings(
            at,
            o(glyph_id(g.id)),
            f,
        )
    }
}

/// The measures of a font.
#[derive(Debug, Clone, Copy, PartialEq, Eq, Structural)]
pub struct Metrics {
    pub units_per_em: u16,
    pub ascender: i16,
    pub descender: i16,
}

/// Millimetres per font unit.
pub open spec fn scale_of(size: u64, units: u16, f: spec_fn(FloatOp, u64, u64) -> u64) -> u64 {
    f(FloatOp::Mul, f(FloatOp::Div, size, int_num(units as int, f)), DPI_SCALE)
}

/// How far a text of a width is shifted sideways.
pub open spec fn shift_x(halign: Seq<char>, width: u64, f: spec_fn(FloatOp, u64, u64) -> u64) -> u64 {
    if halign == "center"@ {
        f(FloatOp::Div, negated(width), TWO)
    } else if halign == "right"@ {
        negated(width)
    } else {
        ZERO
    }
}

/// How far a text is shifted up.
pub open spec fn shift_y(
    valign: Seq<char>,
    ascender: u64,
    descender: u64,
    f: spec_fn(FloatOp, u64, u64) -> u64,
) -> u64 {
    if valign == "top"@ {
        negated(ascender)
    } else if valign == "center"@ {
        f(FloatOp::Div, negated(f(FloatOp::Add, ascender, descender)), TWO)
    } else if valign == "bottom"@ {
        negated(descender)
    } else {
        ZERO
    }
}

/// A shifted point.
pub open spec fn moved_point(p: Vec2, dx: u64, dy: u64, f: spec_fn(FloatOp, u64, u64) -> u64) -> Vec2 {
    Vec2 { x: f(FloatOp::Add, p.x, dx), y: f(FloatOp::Add, p.y, dy) }
}

/// A shifted ring.
pub open spec fn moved_ring(
    ring: Seq<Vec2>,
    dx: u64,
    dy: u64,
    f: spec_fn(FloatOp, u64, u64) -> u64,
) -> Seq<Vec2> {
    Seq::new(ring.len(), |i: int| moved_point(ring[i], dx, dy, f))
}

/// Shifted rings. A shift by nothing leaves the points as they are.
pub open spec fn moved(
    rs: Seq<Seq<Vec2>>,
    dx: u64,
    dy: u64,
    f: spec_fn(FloatOp, u64, u64) -> u64,
) -> Seq<Seq<Vec2>> {
    if num_eq(dx, ZERO) && num_eq(dy, ZERO) {
        rs
    } else {
        Seq::new(rs.len(), |i: int| moved_ring(rs[i], dx, dy, f))
    }
}

fn move_ring<F: Fn(FloatOp, u64, u64) -> u64>(ring: &mut Contour, dx: u64, dy: u64, fpu: &F)
    requires
        unit_ok(*fpu),
    ensures
        final(ring)@ == moved_ring(old(ring)@, dx, dy, unit(*fpu)),
{
    let ghost was = ring@;
    let ghost f = unit(*fpu);
    let mut i: usize = 0;
    while i < ring.len()
        invariant
            i <= ring.len(),
            unit_ok(*fpu),
            f == unit(*fpu),
            was == old(ring)@,
            ring@.len() == was.len(),
            forall|j: int| 0 <= j < i ==> ring@[j] == moved_point(was[j], dx, dy, f),
            forall|j: int| i <= j < was.len() ==> ring@[j] == was[j],
        decreases ring.len() - i,
    {
        let p = ring[i];
        let q = Vec2::new(ask(fpu, FloatOp::Add, p.x, dx), ask(fpu, FloatOp::Add, p.y, dy));
        ring.set(i, q);
        i = i + 1;
    }
    assert(ring@ =~= moved_ring(was, dx, dy, f));
}

/// Shifts every ring.
fn shift<F: Fn(FloatOp, u64, u64) -> u64>(contours: Vec<Contour>, dx: u64, dy: u64, fpu: &F) -> (r: Vec<
    Contour,
>)
    requires
        unit_ok(*fpu),
    ensures
        rings(r@) == moved(rings(contours@), dx, dy, unit(*fpu)),
{
    if equal(dx, ZERO) && equal(dy, ZERO) {
        return contours;
    }
    let ghost f = unit(*fpu);
    let ghost was = rings(contours@);
    let mut contours = contours;
    let mut i: usize = 0;
    while i < contours.len()
        invariant
            i <= contours.len(),
            unit_ok(*fpu),
            f == unit(*fpu),
            contours@.len() == was.len(),
            forall|j: int| 0 <= j < i ==> (#[trigger] contours@[j])@ == moved_ring(was[j], dx, dy, f),
            forall|j: int| i <= j < was.len() ==> (#[trigger] contours@[j])@ == was[j],
        decreases contours.len() - i,
    {
        let mut ring: Contour = Vec::new();
        contours.set_and_swap(i, &mut ring);
        assert(ring@ == was[i as int]);
        move_ring(&mut ring, dx, dy, fpu);
        contours.set(i, ring);
        i = i + 1;
    }
    assert(rings(contours@) =~= moved(was, dx, dy, f));
    contours
}

/// The rings of a text whose glyphs are known: each glyph drawn at the pen, then all of it aligned,
/// sideways over the width that the pen went and upward over the height of the font.
pub open spec fn laid_out(
    glyphs: Seq<Glyph>,
    m: Metrics,
    p: Lettering,
    curve_segs: u32,
    o: spec_fn(u16) -> Seq<Segment>,
    f: spec_fn(FloatOp, u64, u64) -> u64,
) -> Seq<Seq<Vec2>> {
    let scale = scale_of(p.size, m.units_per_em, f);
    let width = f(FloatOp::Mul, pen(glyphs, p.spacing, glyphs.len(), f).x, scale);
    let ascender = f(FloatOp::Mul, int_num(m.ascender as int, f), scale);
    let descender = f(FloatOp::Mul, int_num(m.descender as int, f), scale);
    moved(
        text_rings(glyphs, p.spacing, scale, curve_segs, o, glyphs.len(), f),
        shift_x(p.halign, width, f),
        shift_y(p.valign, ascender, descender, f),
        f,
    )
}

/// Shifts rings to where the alignment of a text puts them.
fn align<F: Fn(FloatOp, u64, u64) -> u64>(
    contours: Vec<Contour>,
    p: &TextParams,
    m: Metrics,
    scale: u64,
    width: u64,
    fpu: &F,
) -> (r: Vec<Contour>)
    requires
        unit_ok(*fpu),
    ensures
        rings(r@) == ({
            let f = unit(*fpu);
            let ascender = f(FloatOp::Mul, int_num(m.ascender as int, f), scale);
            let descender = f(FloatOp::Mul, int_num(m.descender as int, f), scale);
            moved(
                rings(contours@),
                shift_x(p@.halign, width, f),
                shift_y(p@.valign, ascender, descender, f),
                f,
            )
        }),
{
    let dx: u64 = if same(&p.halign, "center") {
        ask(fpu, FloatOp::Div, negate(width), TWO)
    } else if same(&p.halign, "right") {
        negate(width)
    } else {
        ZERO
    };
    let ascender: u64 = ask(fpu, FloatOp::Mul, from_i32(m.ascender as i32, fpu), scale);
    let descender: u64 = ask(fpu, FloatOp::Mul, from_i32(m.descender as i32, fpu), scale);
    let dy: u64 = if same(&p.valign, "top") {
        negate(ascender)
    } else if same(&p.valign, "center") {
        ask(fpu, FloatOp::Div, negate(ask(fpu, FloatOp::Add, ascender, descender)), TWO)
    } else if same(&p.valign, "bottom") {
        negate(descender)
    } else {
        ZERO
    };
    shift(contours, dx, dy, fpu)
}

/// Lays out the glyphs of a text.
pub fn layout<O: Fn(u16) -> Vec<Segment>, F: Fn(FloatOp, u64, u64) -> u64>(
    glyphs: &Vec<Glyph>,
    m: Metrics,
    p: &TextParams,
    curve_segs: u32,
    o: &O,
    fpu: &F,
) -> (r: Vec<Contour>)
    requires
        outlines_ok(*o),
        unit_ok(*fpu),
    ensures
        rings(r@) == laid_out(glyphs@, m, p@, curve_segs, outlines(*o), unit(*fpu)),
{
    let ghost f = unit(*fpu);
    let ratio: u64 = ask(fpu, FloatOp::Div, p.size, from_i32(m.units_per_em as i32, fpu));
    let scale: u64 = ask(fpu, FloatOp::Mul, ratio, DPI_SCALE);
    let mut contours: Vec<Contour> = Vec::new();
    let mut at = Vec2::new(ZERO, ZERO);
    let mut i: usize = 0;
    assert(rings(contours@) =~= Seq::empty());
    while i < glyphs.len()
        invariant
            i <= glyphs.len(),
            outlines_ok(*o),
            unit_ok(*fpu),
            f == unit(*fpu),
            at == pen(glyphs@, p.spacing, i as nat, f),
            rings(contours@) == text_rings(
                glyphs@,
                p.spacing,
                scale,
                curve_segs,
                outlines(*o),
                i as nat,
                f,
            ),
        decreases glyphs.len() - i,
    {
        let g = glyphs[i];
        let id: u16 = if g.id <= 0xffff {
            g.id as u16
        } else {
            0
        };
        let x: u64 = ask(fpu, FloatOp::Add, at.x, from_i32(g.x_offset, fpu));
        let y: u64 = ask(fpu, FloatOp::Add, at.y, from_i32(g.y_offset, fpu));
        let place = Placing {
            origin_x: ask(fpu, FloatOp::Mul, x, scale),
            origin_y: ask(fpu, FloatOp::Mul, y, scale),
            scale,
            curve_segs,
        };
        let mut drawn = collect(place, &outline(o, id), fpu);
        let ghost was = contours@;
        let ghost new = drawn@;
        contours.append(&mut drawn);
        assert(rings(contours@) =~= rings(was) + rings(new));
        let dx: u64 = ask(fpu, FloatOp::Mul, from_i32(g.x_advance, fpu), p.spacing);
        let dy: u64 = ask(fpu, FloatOp::Mul, from_i32(g.y_advance, fpu), p.spacing);
        at = Vec2::new(ask(fpu, FloatOp::Add, at.x, dx), ask(fpu, FloatOp::Add, at.y, dy));
        i = i + 1;
    }
    align(contours, p, m, scale, ask(fpu, FloatOp::Mul, at.x, scale), fpu)
}

/// The segments of a curve: an eighth of `$fn`, rounded up and at least 2, where `$fn` is at least
/// 3; else a quarter of the fragments of an arc of the letter size, rounded up, from 3 to 16.
pub open spec fn curve_segs_of(fn_: u64, frags: u32, f: spec_fn(FloatOp, u64, u64) -> u64) -> u32 {
    if !is_nan(fn_) && !num_lt(fn_, THREE) {
        let eighth = f(FloatOp::Div, fn_, EIGHT);
        let up = to_unsigned(negated(f(FloatOp::Floor, negated(eighth), 0)), u32::MAX as int);
        if up < 2 {
            2
        } else {
            up as u32
        }
    } else {
        let quarter = (frags + 3) / 4;
        if quarter < 3 {
            3
        } else if quarter > 16 {
            16
        } else {
            quarter as u32
        }
    }
}

/// The segments of a curve.
pub fn curve_segments<F: Fn(FloatOp, u64, u64) -> u64>(fn_: u64, frags: u32, fpu: &F) -> (r: u32)
    requires
        unit_ok(*fpu),
    ensures
        r == curve_segs_of(fn_, frags, unit(*fpu)),
{
    if !nan(fn_) && !less(fn_, THREE) {
        let eighth: u64 = ask(fpu, FloatOp::Div, fn_, EIGHT);
        let up: u32 = to_u32(negate(ask(fpu, FloatOp::Floor, negate(eighth), 0)));
        if up < 2 {
            2
        } else {
            up
        }
    } else {
        let quarter: u32 = frags / 4 + if frags % 4 == 0 {
            0u32
        } else {
            1u32
        };
        if quarter < 3 {
            3
        } else if quarter > 16 {
            16
        } else {
            quarter
        }
    }
}

/// A text that is given, as against one that is left out.
pub open spec fn given_text(s: Seq<char>) -> Option<Seq<char>> {
    if s.len() == 0 {
        None
    } else {
        Some(s)
    }
}

/// The glyphs of a text: its own direction, script and language where it names them, the shaper's
/// guess where it does not.
pub open spec fn text_glyphs(font: Seq<u8>, p: Lettering) -> Option<Seq<Glyph>> {
    let direction = match direction_of(p.direction) {
        Some(d) => Some(d.named()),
        None => None,
    };
    shaped(font, p.text, direction, script_of(p.script), given_text(p.language))
}

/// The rings of a text in a font. An empty text has none, nor has one in bytes that are no font.
pub open spec fn lettered(
    font: Seq<u8>,
    p: Lettering,
    fn_: u64,
    frags: u32,
    o: spec_fn(u16) -> Seq<Segment>,
    f: spec_fn(FloatOp, u64, u64) -> u64,
) -> Seq<Seq<Vec2>> {
    if p.text.len() == 0 {
        Seq::empty()
    } else {
        match (units_of(font), ascender_of(font), descender_of(font), text_glyphs(font, p)) {
            (Some(u), Some(a), Some(d), Some(glyphs)) => laid_out(
                glyphs,
                Metrics { units_per_em: u, ascender: a, descender: d },
                p,
                curve_segs_of(fn_, frags, f),
                o,
                f,
            ),
            _ => Seq::empty(),
        }
    }
}

/// Whether a text can be lettered in a font: there is none, or the font can be shaped with, the shaper
/// can take the text, and its language is named in the first 128 characters.
pub open spec fn can_letter(font: Seq<u8>, p: Lettering) -> bool {
    p.text.len() > 0 ==> font_shapes(font) && text_fits(font, p.text, script_of(p.script)) && ascii(
        p.language,
    )
}

/// The rings of a text in a font.
pub fn text_contours<O: Fn(u16) -> Vec<Segment>, F: Fn(FloatOp, u64, u64) -> u64>(
    font: &Vec<u8>,
    p: &TextParams,
    fn_: u64,
    frags: u32,
    o: &O,
    fpu: &F,
) -> (r: Vec<Contour>)
    requires
        can_letter(font@, p@),
        outlines_ok(*o),
        unit_ok(*fpu),
    ensures
        rings(r@) == lettered(font@, p@, fn_, frags, outlines(*o), unit(*fpu)),
{
    let none: Vec<Contour> = Vec::new();
    assert(rings(none@) =~= Seq::empty());
    if p.text.as_str().is_empty() {
        return none;
    }
    let direction: Option<&str> = match parse_direction(&p.direction) {
        Some(d) => Some(d.word()),
        None => None,
    };
    let language: Option<&str> = if p.language.as_str().is_empty() {
        None
    } else {
        Some(p.language.as_str())
    };
    match (units_per_em(font), ascender(font), descender(font)) {
        (Some(u), Some(a), Some(d)) => {
            match shape(font, &p.text, direction, script_tag(&p.script), language) {
                Some(glyphs) => {
                    let m = Metrics { units_per_em: u, ascender: a, descender: d };
                    layout(&glyphs, m, p, curve_segments(fn_, frags, fpu), o, fpu)
                },
                None => none,
            }
        },
        _ => none,
    }
}

/// The rings of a text in a font; nothing where it cannot be lettered in it.
pub fn try_text_contours<O: Fn(u16) -> Vec<Segment>, F: Fn(FloatOp, u64, u64) -> u64>(
    font: &Vec<u8>,
    p: &TextParams,
    fn_: u64,
    frags: u32,
    o: &O,
    fpu: &F,
) -> (r: Option<Vec<Contour>>)
    requires
        outlines_ok(*o),
        unit_ok(*fpu),
    ensures
        match r {
            Some(cs) => can_letter(font@, p@) && rings(cs@) == lettered(
                font@,
                p@,
                fn_,
                frags,
                outlines(*o),
                unit(*fpu),
            ),
            None => !can_letter(font@, p@),
        },
{
    if !p.text.as_str().is_empty() {
        if !is_sound(font) || !applies(font) || !fits_boxes(font) {
            return None;
        }
        if !fits_text(font, &p.text, script_tag(&p.script)) || !is_ascii(&p.language) {
            return None;
        }
        match (ascender(font), descender(font)) {
            (Some(a), Some(d)) => {
                let height: i32 = a as i32 - d as i32;
                if height < -0x8000 || height > 0x7fff {
                    return None;
                }
            },
            _ => {},
        }
    }
    Some(text_contours(font, p, fn_, frags, o, fpu))
}

/// A text that is aligned left on the baseline stands where the pen drew it.
pub proof fn law_plain_text_is_not_shifted(
    glyphs: Seq<Glyph>,
    m: Metrics,
    p: Lettering,
    curve_segs: u32,
    o: spec_fn(u16) -> Seq<Segment>,
    f: spec_fn(FloatOp, u64, u64) -> u64,
)
    requires
        p.halign == "left"@,
        p.valign == "baseline"@,
    ensures
        laid_out(glyphs, m, p, curve_segs, o, f) == text_rings(
            glyphs,
            p.spacing,
            scale_of(p.size, m.units_per_em, f),
            curve_segs,
            o,
            glyphs.len(),
            f,
        ),
{
    reveal_strlit("left");
    reveal_strlit("center");
    reveal_strlit("right");
    reveal_strlit("baseline");
    reveal_strlit("top");
    reveal_strlit("bottom");
    assert("left"@.len() == 4 && "center"@.len() == 6 && "right"@.len() == 5);
    assert("baseline"@.len() == 8 && "top"@.len() == 3 && "bottom"@.len() == 6);
}

/// A text that is aligned to the right ends where one that is aligned to the left begins, and one in the middle
/// is moved by half of that; one aligned to the top hangs from the line, one to the bottom stands on it with what
/// reaches below, and one in the middle is moved by half of both. Any other word moves nothing.
pub proof fn law_alignment(
    word: Seq<char>,
    width: u64,
    up: u64,
    down: u64,
    f: spec_fn(FloatOp, u64, u64) -> u64,
)
    ensures
        word == "right"@ ==> shift_x(word, width, f) == negated(width),
        word == "center"@ ==> shift_x(word, width, f) == f(FloatOp::Div, negated(width), 0x4000_0000_0000_0000),
        word != "right"@ && word != "center"@ ==> shift_x(word, width, f) == 0,
        word == "top"@ ==> shift_y(word, up, down, f) == negated(up),
        word == "bottom"@ ==> shift_y(word, up, down, f) == negated(down),
        word == "center"@ ==> shift_y(word, up, down, f) == f(
            FloatOp::Div,
            negated(f(FloatOp::Add, up, down)),
            0x4000_0000_0000_0000,
        ),
        word != "top"@ && word != "bottom"@ && word != "center"@ ==> shift_y(word, up, down, f) == 0,
{
    reveal_strlit("center");
    reveal_strlit("right");
    reveal_strlit("top");
    reveal_strlit("bottom");
    assert("center"@.len() == 6 && "right"@.len() == 5 && "top"@.len() == 3 && "bottom"@.len() == 6);
    assert("center"@[0] == 'c' && "bottom"@[0] == 'b');
}

/// A text is moved as a whole: each of its points by the same way, sideways by what its width asks for and upward
/// by what the height of its font does.
pub proof fn law_text_is_moved_as_a_whole(
    glyphs: Seq<Glyph>,
    m: Metrics,
    p: Lettering,
    segs: u32,
    o: spec_fn(u16) -> Seq<Segment>,
    i: int,
    j: int,
    f: spec_fn(FloatOp, u64, u64) -> u64,
)
    requires
        ({
            let scale = scale_of(p.size, m.units_per_em, f);
            let rings = text_rings(glyphs, p.spacing, scale, segs, o, glyphs.len(), f);
            0 <= i < rings.len() && 0 <= j < rings[i].len()
        }),
        p.halign == "right"@,
        p.valign == "top"@,
    ensures
        ({
            let scale = scale_of(p.size, m.units_per_em, f);
            let rings = text_rings(glyphs, p.spacing, scale, segs, o, glyphs.len(), f);
            let dx = negated(f(FloatOp::Mul, pen(glyphs, p.spacing, glyphs.len(), f).x, scale));
            let dy = negated(f(FloatOp::Mul, int_num(m.ascender as int, f), scale));
            num_eq(dx, ZERO) && num_eq(dy, ZERO) || laid_out(glyphs, m, p, segs, o, f)[i][j] == Vec2 {
                x: f(FloatOp::Add, rings[i][j].x, dx),
                y: f(FloatOp::Add, rings[i][j].y, dy),
            }
        }),
{
    law_alignment(p.halign, 0, 0, 0, f);
    reveal_strlit("center");
    reveal_strlit("right");
    reveal_strlit("top");
    assert("center"@.len() == 6 && "right"@.len() == 5 && "top"@.len() == 3);
}

/// The pen goes on by the advance of each glyph, spread as the text says, and each glyph is drawn at the pen and its
/// own offset, scaled.
pub proof fn law_pen(
    glyphs: Seq<Glyph>,
    spacing: u64,
    n: nat,
    g: Glyph,
    at: Vec2,
    scale: u64,
    segs: u32,
    f: spec_fn(FloatOp, u64, u64) -> u64,
)
    requires
        n < glyphs.len(),
    ensures
        pen(glyphs, spacing, n + 1, f).x == f(
            FloatOp::Add,
            pen(glyphs, spacing, n, f).x,
            f(FloatOp::Mul, f(FloatOp::FromInt, glyphs[n as int].x_advance as i64 as u64, 0), spacing),
        ),
        pen(glyphs, spacing, n + 1, f).y == f(
            FloatOp::Add,
            pen(glyphs, spacing, n, f).y,
            f(FloatOp::Mul, f(FloatOp::FromInt, glyphs[n as int].y_advance as i64 as u64, 0), spacing),
        ),
        pen(glyphs, spacing, 0, f) == (Vec2 { x: 0, y: 0 }),
        glyph_place(g, at, scale, segs, f).origin_x == f(
            FloatOp::Mul,
            f(FloatOp::Add, at.x, f(FloatOp::FromInt, g.x_offset as i64 as u64, 0)),
            scale,
        ),
        glyph_place(g, at, scale, segs, f).origin_y == f(
            FloatOp::Mul,
            f(FloatOp::Add, at.y, f(FloatOp::FromInt, g.y_offset as i64 as u64, 0)),
            scale,
        ),
{
}

/// A point of a curve with one control point, where the float unit is exact, is the sum of its start, control and end
/// points by their weights.
pub proof fn law_curves(
    t: u64,
    p0: u64,
    c: u64,
    p1: u64,
    n: (int, int, int, int),
    bound: int,
    f: spec_fn(FloatOp, u64, u64) -> u64,
)
    requires
        exact_to(f, bound),
        counts(ONE, 1),
        counts(TWO, 2),
        counts(t, n.0),
        counts(p0, n.1),
        counts(c, n.2),
        counts(p1, n.3),
        ({
            let m = 1 - n.0;
            &&& size(m) <= bound && size(m * m) <= bound && size(n.0 * n.0) <= bound && size(2 * m) <= bound && size(
                2 * m * n.0,
            ) <= bound
            &&& size(m * m * n.1) + size(2 * m * n.0 * n.2) + size(n.0 * n.0 * n.3) <= bound
        }),
    ensures
        counts(
            quad_at(t, p0, c, p1, f),
            (1 - n.0) * (1 - n.0) * n.1 + 2 * (1 - n.0) * n.0 * n.2 + n.0 * n.0 * n.3,
        ),
{
    let m = 1 - n.0;
    let mt = f(FloatOp::Sub, ONE, t);
    assert(counts(mt, m));
    let mm = f(FloatOp::Mul, mt, mt);
    assert(counts(mm, m * m));
    let a = f(FloatOp::Mul, mm, p0);
    assert(counts(a, m * m * n.1));
    let m2 = f(FloatOp::Mul, TWO, mt);
    assert(counts(m2, 2 * m));
    let m2t = f(FloatOp::Mul, m2, t);
    assert(counts(m2t, 2 * m * n.0));
    let b = f(FloatOp::Mul, m2t, c);
    assert(counts(b, 2 * m * n.0 * n.2));
    let tt = f(FloatOp::Mul, t, t);
    assert(counts(tt, n.0 * n.0));
    let d = f(FloatOp::Mul, tt, p1);
    assert(counts(d, n.0 * n.0 * n.3));
    let ab = f(FloatOp::Add, a, b);
    assert(counts(ab, m * m * n.1 + 2 * m * n.0 * n.2));
}

/// A curve has at least two segments; one whose fineness is not set has from three to sixteen, a quarter of the
/// fragments of an arc, rounded up.
pub proof fn law_curve_segments(fn_: u64, frags: u32, f: spec_fn(FloatOp, u64, u64) -> u64)
    ensures
        curve_segs_of(fn_, frags, f) >= 2,
        is_nan(fn_) || num_lt(fn_, 0x4008_0000_0000_0000) ==> {
            let n = curve_segs_of(fn_, frags, f);
            &&& 3 <= n <= 16
            &&& 12 <= frags <= 64 ==> 4 * n >= frags && 4 * n < frags + 4
            &&& frags < 12 ==> n == 3
            &&& frags > 64 ==> n == 16
        },
        !is_nan(fn_) && !num_lt(fn_, 0x4008_0000_0000_0000) ==> ({
            let up = to_unsigned(
                negated(f(FloatOp::Floor, negated(f(FloatOp::Div, fn_, 0x4020_0000_0000_0000)), 0)),
                u32::MAX as int,
            );
            up >= 2 ==> curve_segs_of(fn_, frags, f) == up
        }),
{
    let up = to_unsigned(
        negated(f(FloatOp::Floor, negated(f(FloatOp::Div, fn_, 0x4020_0000_0000_0000)), 0)),
        u32::MAX as int,
    );
    crate::num::law_unsigned_in_range(
        negated(f(FloatOp::Floor, negated(f(FloatOp::Div, fn_, 0x4020_0000_0000_0000)), 0)),
        u32::MAX as int,
    );
}

/// An outline begins a ring at each move, goes on with a point for each line and as many points for each curve as
/// it has segments, and closes the ring before the next one; a ring without points is none.
pub proof fn law_strokes(at: Placing, t: Traced, a: Vec2, b: Vec2, p: Vec2, f: spec_fn(FloatOp, u64, u64) -> u64)
    ensures
        ({
            let here = Vec2 {
                x: f(FloatOp::Add, at.origin_x, f(FloatOp::Mul, p.x, at.scale)),
                y: f(FloatOp::Add, at.origin_y, f(FloatOp::Mul, p.y, at.scale)),
            };
            let line = stroke(at, t, Segment::Line(p), f);
            let move_ = stroke(at, t, Segment::Move(p), f);
            let quad = stroke(at, t, Segment::Quad(a, p), f);
            let curve = stroke(at, t, Segment::Curve(a, b, p), f);
            let close = stroke(at, t, Segment::Close, f);
            &&& line.open == t.open.push(here) && line.done == t.done && line.last == p
            &&& move_.open == seq![here] && move_.last == p
            &&& quad.open.len() == t.open.len() + at.curve_segs && quad.done == t.done && quad.last == p
            &&& curve.open.len() == t.open.len() + at.curve_segs && curve.done == t.done && curve.last == p
            &&& t.open.len() > 0 ==> close.done == t.done.push(t.open) && move_.done == close.done
            &&& t.open.len() == 0 ==> close.done == t.done && move_.done == t.done
            &&& close.open.len() == 0
        }),
{
}

/// A script is named by its four bytes, the first the highest; a direction by one of four words.
pub proof fn law_names_of_text(id: u32)
    ensures
        direction_of("ltr"@) == Some(Direction::LeftToRight),
        direction_of("rtl"@) == Some(Direction::RightToLeft),
        direction_of("ttb"@) == Some(Direction::TopToBottom),
        direction_of("btt"@) == Some(Direction::BottomToTop),
        id <= 65535 ==> glyph_id(id) == id,
        id > 65535 ==> glyph_id(id) == 0,
{
    law_words_name_directions("ltr"@, Direction::LeftToRight);
    law_words_name_directions("rtl"@, Direction::RightToLeft);
    law_words_name_directions("ttb"@, Direction::TopToBottom);
    law_words_name_directions("btt"@, Direction::BottomToTop);
}

/// The tag of a script is read back from its number, byte by byte; only a name of four bytes, not all of them zero, has
/// one.
pub proof fn law_script_tags(script: Seq<char>)
    ensures
        ({
            let bytes = encode_utf8(script);
            match script_of(script) {
                Some(t) => bytes.len() == 4 && t / 0x100_0000 == bytes[0] && t / 0x1_0000 % 0x100 == bytes[1] && t / 0x100
                    % 0x100 == bytes[2] && t % 0x100 == bytes[3] && t != 0,
                None => bytes.len() != 4 || (bytes[0] == 0 && bytes[1] == 0 && bytes[2] == 0 && bytes[3] == 0),
            }
        }),
{
}

/// No text has no outline, nor has any text in a font that lacks what it takes to place letters.
pub proof fn law_nothing_to_letter(
    font: Seq<u8>,
    p: Lettering,
    fn_: u64,
    frags: u32,
    o: spec_fn(u16) -> Seq<Segment>,
    f: spec_fn(FloatOp, u64, u64) -> u64,
)
    ensures
        p.text.len() == 0 ==> lettered(font, p, fn_, frags, o, f).len() == 0,
        units_of(font) is None || ascender_of(font) is None || descender_of(font) is None ==> lettered(
            font,
            p,
            fn_,
            frags,
            o,
            f,
        ).len() == 0,
{
}

/// A curve with two control points weighs its four points as the binomial of `(1-t) + t` does, where the float unit is
/// exact.
pub proof fn law_cubic_curves(
    t: u64,
    p: (u64, u64, u64, u64),
    k: int,
    n: (int, int, int, int),
    bound: int,
    f: spec_fn(FloatOp, u64, u64) -> u64,
)
    requires
        exact_to(f, bound),
        counts(ONE, 1),
        counts(THREE, 3),
        counts(t, k),
        counts(p.0, n.0),
        counts(p.1, n.1),
        counts(p.2, n.2),
        counts(p.3, n.3),
        ({
            let m = 1 - k;
            &&& size(m) <= bound && size(m * m) <= bound && size(m * m * m) <= bound
            &&& size(k * k) <= bound && size(k * k * k) <= bound
            &&& size(3 * m) <= bound && size(3 * m * m) <= bound && size(3 * m * m * k) <= bound
            &&& size(3 * m * k) <= bound && size(3 * m * k * k) <= bound
            &&& size(m * m * m * n.0) + size(3 * m * m * k * n.1) + size(3 * m * k * k * n.2) + size(k * k * k * n.3)
                <= bound
        }),
    ensures
        counts(
            cubic_at(t, p.0, p.1, p.2, p.3, f),
            (1 - k) * (1 - k) * (1 - k) * n.0 + 3 * (1 - k) * (1 - k) * k * n.1 + 3 * (1 - k) * k * k * n.2 + k * k * k
                * n.3,
        ),
{
    let m = 1 - k;
    let mt = f(FloatOp::Sub, ONE, t);
    assert(counts(mt, m));
    let mm = f(FloatOp::Mul, mt, mt);
    assert(counts(mm, m * m));
    let mmm = f(FloatOp::Mul, mm, mt);
    assert(counts(mmm, m * m * m));
    let a = f(FloatOp::Mul, mmm, p.0);
    assert(counts(a, m * m * m * n.0));
    let m3 = f(FloatOp::Mul, THREE, mt);
    assert(counts(m3, 3 * m));
    let m3m = f(FloatOp::Mul, m3, mt);
    assert(counts(m3m, 3 * m * m));
    let m3mt = f(FloatOp::Mul, m3m, t);
    assert(counts(m3mt, 3 * m * m * k));
    let b = f(FloatOp::Mul, m3mt, p.1);
    assert(counts(b, 3 * m * m * k * n.1));
    let m3t = f(FloatOp::Mul, m3, t);
    assert(counts(m3t, 3 * m * k));
    let m3tt = f(FloatOp::Mul, m3t, t);
    assert(counts(m3tt, 3 * m * k * k));
    let c = f(FloatOp::Mul, m3tt, p.2);
    assert(counts(c, 3 * m * k * k * n.2));
    let tt = f(FloatOp::Mul, t, t);
    assert(counts(tt, k * k));
    let ttt = f(FloatOp::Mul, tt, t);
    assert(counts(ttt, k * k * k));
    let d = f(FloatOp::Mul, ttt, p.3);
    assert(counts(d, k * k * k * n.3));
    let ab = f(FloatOp::Add, a, b);
    assert(counts(ab, m * m * m * n.0 + 3 * m * m * k * n.1));
    let abc = f(FloatOp::Add, ab, c);
    assert(counts(abc, m * m * m * n.0 + 3 * m * m * k * n.1 + 3 * m * k * k * n.2));
}

/// The points that stand for a curve lie at equal shares of it: the `i`-th of them at the share of `i + 1` among all, so that
/// the last one is where the curve ends.
pub proof fn law_curve_points(
    at: Placing,
    p0: Vec2,
    c1: Vec2,
    c2: Vec2,
    p1: Vec2,
    n: nat,
    i: int,
    f: spec_fn(FloatOp, u64, u64) -> u64,
)
    requires
        0 <= i < n,
        forall|k: u64| k <= u32::MAX ==> counts(#[trigger] f(FloatOp::FromInt, k, 0), k as int),
        n <= at.curve_segs,
    ensures
        quad_points(at, p0, c1, p1, n, f).len() == n,
        cubic_points(at, p0, c1, c2, p1, n, f).len() == n,
        exists|a: u64, b: u64|
            counts(a, i + 1) && counts(b, at.curve_segs as int) && quad_points(at, p0, c1, p1, n, f)[i] == placed(
                at,
                quad_point(#[trigger] f(FloatOp::Div, a, b), p0, c1, p1, f),
                f,
            ) && cubic_points(at, p0, c1, c2, p1, n, f)[i] == placed(
                at,
                cubic_point(f(FloatOp::Div, a, b), p0, c1, c2, p1, f),
                f,
            ),
{
    let a = f(FloatOp::FromInt, (i + 1) as u64, 0);
    let b = f(FloatOp::FromInt, at.curve_segs as u64, 0);
    assert(counts(a, i + 1));
    assert(counts(b, at.curve_segs as int));
    let d = f(FloatOp::Div, a, b);
}

} // verus!
