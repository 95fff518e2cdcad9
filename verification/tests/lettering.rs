//! Lettering.

use std::rc::Rc;

use fab_lang::ast::Name;
use fab_lang::font::{fits_boxes, fits_text, is_sound};
use fab_lang::geom::Vec2;
use fab_lang::lookups::applies;
use fab_lang::num::FloatOp;
use fab_lang::primitives::TextParams;
use fab_lang::text::{
    curve_segments, layout, parse_direction, script_tag, text_contours, try_text_contours, Direction,
    Glyph, Metrics, OutlineCollector, Segment,
};

fn fpu(op: FloatOp, a: u64, b: u64) -> u64 {
    let (x, y) = (f64::from_bits(a), f64::from_bits(b));
    let r = match op {
        FloatOp::Add => x + y,
        FloatOp::Sub => x - y,
        FloatOp::Mul => x * y,
        FloatOp::Div => x / y,
        FloatOp::Rem => x % y,
        FloatOp::Pow => x.powf(y),
        FloatOp::Sqrt => x.sqrt(),
        FloatOp::Floor => x.floor(),
        FloatOp::Sin => x.sin(),
        FloatOp::Cos => x.cos(),
        FloatOp::Tan => x.tan(),
        FloatOp::Asin => x.asin(),
        FloatOp::Acos => x.acos(),
        FloatOp::Atan => x.atan(),
        FloatOp::Atan2 => x.atan2(y),
        FloatOp::Round => x.round(),
        FloatOp::Degrees => x.to_degrees(),
        FloatOp::FromInt => (a as i64) as f64,
        FloatOp::Midpoint => x + (y - x) / 2.0,
    };
    r.to_bits()
}

fn n(x: f64) -> u64 {
    x.to_bits()
}

fn name(s: &str) -> Name {
    Rc::new(s.to_string())
}

fn pt(x: f64, y: f64) -> Vec2 {
    Vec2::new(n(x), n(y))
}

fn params(text: &str, size: f64, halign: &str, valign: &str) -> TextParams {
    TextParams {
        text: name(text),
        size: n(size),
        halign: name(halign),
        valign: name(valign),
        spacing: n(1.0),
        direction: name(""),
        language: name(""),
        script: name(""),
    }
}

/// The points of some rings, to a millionth.
fn flat(rings: &[Vec<Vec2>]) -> Vec<Vec<[f64; 2]>> {
    let near = |b: u64| (f64::from_bits(b) * 1e6).round() / 1e6;
    rings.iter().map(|r| r.iter().map(|p| p.to_array().map(near)).collect()).collect()
}

/// A glyph as a mark: one point at the place of its number.
fn mark(id: u16) -> Vec<Segment> {
    vec![Segment::Move(pt(f64::from(id), 0.0)), Segment::Close]
}

fn put(out: &mut Vec<u8>, at: usize, bytes: &[u8]) {
    out[at..at + bytes.len()].copy_from_slice(bytes);
}

/// A font of two glyphs: the missing one, 500 units wide, and that of the letter A, 600 units wide.
fn font(ascender: i16, descender: i16) -> Vec<u8> {
    font_with(ascender, descender, Vec::new())
}

/// Such a font with more tables.
fn font_with(ascender: i16, descender: i16, more: Vec<(&'static [u8; 4], Vec<u8>)>) -> Vec<u8> {
    let mut head = vec![0u8; 54];
    put(&mut head, 0, &[0, 1, 0, 0]);
    put(&mut head, 12, &[0x5f, 0x0f, 0x3c, 0xf5]);
    put(&mut head, 18, &1000u16.to_be_bytes());
    let mut hhea = vec![0u8; 36];
    put(&mut hhea, 0, &[0, 1, 0, 0]);
    put(&mut hhea, 4, &ascender.to_be_bytes());
    put(&mut hhea, 6, &descender.to_be_bytes());
    put(&mut hhea, 34, &2u16.to_be_bytes());
    let mut maxp = vec![0u8; 6];
    put(&mut maxp, 0, &[0, 0, 0x50, 0]);
    put(&mut maxp, 4, &2u16.to_be_bytes());
    let mut hmtx = vec![0u8; 8];
    put(&mut hmtx, 0, &500u16.to_be_bytes());
    put(&mut hmtx, 4, &600u16.to_be_bytes());
    let mut cmap = Vec::new();
    for w in [0u16, 1, 3, 10, 0, 12] {
        cmap.extend_from_slice(&w.to_be_bytes());
    }
    for w in [12u16, 0] {
        cmap.extend_from_slice(&w.to_be_bytes());
    }
    for w in [28u32, 0, 1, 65, 65, 1] {
        cmap.extend_from_slice(&w.to_be_bytes());
    }
    let mut tables: Vec<(&[u8; 4], Vec<u8>)> =
        vec![(b"cmap", cmap), (b"head", head), (b"hhea", hhea), (b"hmtx", hmtx), (b"maxp", maxp)];
    tables.extend(more);
    tables.sort();
    let mut out = vec![0, 1, 0, 0, 0, tables.len() as u8, 0, 0, 0, 0, 0, 0];
    let mut offset = 12 + 16 * tables.len();
    for (tag, data) in &tables {
        out.extend_from_slice(&tag[..]);
        out.extend_from_slice(&[0; 4]);
        out.extend_from_slice(&(offset as u32).to_be_bytes());
        out.extend_from_slice(&(data.len() as u32).to_be_bytes());
        offset += (data.len() + 3) / 4 * 4;
    }
    for (_, data) in &tables {
        out.extend_from_slice(data);
        out.resize((out.len() + 3) / 4 * 4, 0);
    }
    out
}

#[test]
fn directions_and_scripts_are_read_by_their_words() {
    assert_eq!(parse_direction("ltr"), Some(Direction::LeftToRight));
    assert_eq!(parse_direction("rtl"), Some(Direction::RightToLeft));
    assert_eq!(parse_direction("ttb"), Some(Direction::TopToBottom));
    assert_eq!(parse_direction("btt"), Some(Direction::BottomToTop));
    assert_eq!(parse_direction("left"), None);
    assert_eq!(parse_direction(""), None);
    assert_eq!(script_tag("latn"), Some(u32::from_be_bytes(*b"latn")));
    assert_eq!(script_tag("latin"), None);
    assert_eq!(script_tag("\u{0}\u{0}\u{0}\u{0}"), None);
    assert_eq!(script_tag("\u{e9}\u{e9}"), Some(0xc3a9_c3a9));
}

#[test]
fn curves_are_flattened_in_font_units() {
    let mut c = OutlineCollector::new(n(10.0), n(20.0), n(2.0), 2);
    c.move_to(pt(0.0, 0.0), &fpu);
    c.quad_to(pt(1.0, 2.0), pt(2.0, 0.0), &fpu);
    c.line_to(pt(0.0, 0.0), &fpu);
    c.close();
    c.close();
    c.move_to(pt(0.0, 0.0), &fpu);
    c.curve_to(pt(0.0, 4.0), pt(4.0, 4.0), pt(4.0, 0.0), &fpu);
    assert_eq!(
        flat(&c.finish()),
        vec![
            vec![[10.0, 20.0], [12.0, 22.0], [14.0, 20.0], [10.0, 20.0]],
            vec![[10.0, 20.0], [14.0, 26.0], [18.0, 20.0]],
        ]
    );
}

#[test]
fn glyphs_follow_the_pen_and_the_alignment() {
    let m = Metrics { units_per_em: 1000, ascender: 800, descender: -200 };
    let glyphs = vec![
        Glyph { id: 1, x_offset: 0, y_offset: 5, x_advance: 600, y_advance: 0 },
        Glyph { id: 70_000, x_offset: 0, y_offset: 0, x_advance: 400, y_advance: 0 },
    ];
    let at = |p: &TextParams| flat(&layout(&glyphs, m, p, 4, &mark, &fpu));
    assert_eq!(at(&params("x", 720.0, "left", "baseline")), vec![vec![[1.0, 5.0]], vec![[600.0, 0.0]]]);
    assert_eq!(at(&params("x", 720.0, "right", "top")), vec![vec![[-999.0, -795.0]], vec![[-400.0, -800.0]]]);
    assert_eq!(at(&params("x", 720.0, "center", "center")), vec![vec![[-499.0, -295.0]], vec![[100.0, -300.0]]]);
    assert_eq!(at(&params("x", 720.0, "left", "bottom")), vec![vec![[1.0, 205.0]], vec![[600.0, 200.0]]]);
    let mut wide = params("x", 720.0, "left", "baseline");
    wide.spacing = n(2.0);
    assert_eq!(at(&wide), vec![vec![[1.0, 5.0]], vec![[1200.0, 0.0]]]);
}

#[test]
fn a_text_is_shaped_with_its_font() {
    let f = font(800, -200);
    let p = params("AxA", 720.0, "left", "baseline");
    let rings = flat(&text_contours(&f, &p, n(0.0), 30, &mark, &fpu));
    assert_eq!(rings, vec![vec![[1.0, 0.0]], vec![[600.0, 0.0]], vec![[1101.0, 0.0]]]);
    let mut back = params("Ax", 720.0, "left", "top");
    back.direction = name("rtl");
    let rings = flat(&text_contours(&f, &back, n(0.0), 30, &mark, &fpu));
    assert_eq!(rings, vec![vec![[0.0, -800.0]], vec![[501.0, -800.0]]]);
    let low = params("A", 720.0, "left", "bottom");
    assert_eq!(flat(&text_contours(&f, &low, n(0.0), 30, &mark, &fpu)), vec![vec![[1.0, 200.0]]]);
}

#[test]
fn no_text_and_no_font_draw_nothing() {
    let f = font(800, -200);
    assert!(text_contours(&f, &params("", 10.0, "left", "top"), n(0.0), 30, &mark, &fpu).is_empty());
    let none = vec![1, 2, 3];
    assert!(text_contours(&none, &params("A", 10.0, "left", "top"), n(0.0), 30, &mark, &fpu).is_empty());
    let tall = font(i16::MAX, -2);
    assert!(try_text_contours(&tall, &params("A", 10.0, "left", "top"), n(0.0), 30, &mark, &fpu).is_none());
    let drawn = try_text_contours(&f, &params("A", 720.0, "left", "baseline"), n(0.0), 30, &mark, &fpu);
    assert_eq!(flat(&drawn.unwrap()), vec![vec![[1.0, 0.0]]]);
}

fn words(ws: &[u16]) -> Vec<u8> {
    ws.iter().flat_map(|w| w.to_be_bytes()).collect()
}

/// A table of substitutions or positions with one lookup of a kind, and one part of it.
fn lookup(kind: u16, part: &[u16]) -> Vec<u8> {
    let mut ws = vec![1, 0, 10, 12, 14, 0, 0, 1, 4, kind, 0, 1, 8];
    ws.extend_from_slice(part);
    words(&ws)
}

/// Such a table in a font.
fn with(tag: &'static [u8; 4], table: Vec<u8>) -> Vec<u8> {
    font_with(800, -200, vec![(tag, table)])
}

fn drawn(f: &Vec<u8>, p: &TextParams) -> Option<usize> {
    try_text_contours(f, p, n(0.0), 30, &mark, &fpu).map(|r| r.len())
}

fn latin(text: &str) -> TextParams {
    params(text, 10.0, "left", "baseline")
}

#[test]
fn fonts_that_cannot_be_read_are_told() {
    let plain = font(800, -200);
    assert_eq!(drawn(&plain, &latin("A")), Some(1));
    assert!(is_sound(&plain));
    for tag in [
        b"CBDT", b"CBLC", b"CFF ", b"CFF2", b"COLR", b"CPAL", b"EBDT", b"EBLC", b"HVAR", b"MATH", b"MVAR",
        b"STAT", b"SVG ", b"VVAR", b"ankr", b"avar", b"bdat", b"bloc", b"feat", b"fvar", b"gvar", b"kerx",
        b"morx", b"sbix", b"trak",
    ] {
        let f = with(tag, vec![0; 16]);
        assert!(!is_sound(&f));
        assert_eq!(drawn(&f, &latin("A")), None);
        assert_eq!(drawn(&f, &latin("")), Some(0));
    }
    assert_eq!(drawn(&with(b"cvt ", vec![0; 16]), &latin("A")), Some(1));
    let deep = |depth: u16| {
        let mut os2 = vec![0u8; 78];
        put(&mut os2, 76, &depth.to_be_bytes());
        font_with(0, 0, vec![(b"OS/2", os2)])
    };
    assert_eq!(drawn(&deep(0x8000), &latin("A")), None);
    assert_eq!(drawn(&deep(200), &latin("A")), Some(1));
    let mut many = plain.clone();
    put(&mut many, 0, b"ttcf");
    assert!(!is_sound(&many));
    let mut full = plain.clone();
    put(&mut full, 4, &u16::MAX.to_be_bytes());
    assert!(!is_sound(&full));
    let at = plain.windows(4).position(|w| w == b"cmap").unwrap() + 8;
    let map = u32::from_be_bytes([plain[at], plain[at + 1], plain[at + 2], plain[at + 3]]) as usize + 12;
    let mapped = |format: u16, count: u32| {
        let mut f = plain.clone();
        put(&mut f, map, &format.to_be_bytes());
        put(&mut f, map + 12, &count.to_be_bytes());
        f
    };
    assert_eq!(drawn(&mapped(12, 1), &latin("A")), Some(1));
    assert!(is_sound(&mapped(12, 0x1000_0000)) && !is_sound(&mapped(12, 0x1000_0001)));
    assert!(is_sound(&mapped(13, 1)) && !is_sound(&mapped(13, 0x1000_0001)));
    assert!(is_sound(&mapped(10, 1)) && !is_sound(&mapped(14, 1)));
    assert!(is_sound(&with(b"GDEF", words(&[1, 2, 0, 0, 0, 0]))));
    assert!(!is_sound(&with(b"GDEF", words(&[1, 3, 0, 0, 0, 0]))));
    let mut later = lookup(1, &[1, 6, 0, 1, 1, 1]);
    put(&mut later, 2, &1u16.to_be_bytes());
    assert!(!is_sound(&with(b"GSUB", later)));
    let long = |len: usize| {
        let mut t = lookup(1, &[1, 6, 0, 1, 1, 1]);
        t.resize(len, 0);
        with(b"GSUB", t)
    };
    assert!(is_sound(&long(0x1_fffd)) && !is_sound(&long(0x1_fffe)));
    assert!(is_sound(&with(b"kern", words(&[0, 0]))) && !is_sound(&with(b"kern", words(&[1, 0]))));
}

#[test]
fn lookups_that_cannot_be_applied_are_told() {
    let of = |tag: &'static [u8; 4], kind: u16, part: &[u16]| with(tag, lookup(kind, part));
    let taken = |f: Vec<u8>| {
        assert_eq!(drawn(&f, &latin("A")).is_some(), applies(&f));
        applies(&f)
    };
    let listed = [1, 6, 0, 1, 1, 1];
    for kind in [1, 3, 4] {
        assert!(taken(of(b"GSUB", kind, &listed)));
    }
    for kind in [2, 7] {
        assert!(!taken(of(b"GSUB", kind, &listed)));
    }
    assert!(taken(of(b"GSUB", 5, &[1, 6, 0, 1, 1, 1])));
    assert!(taken(of(b"GSUB", 5, &[3, 2, 0, 10, 10, 1, 1, 1])));
    assert!(!taken(of(b"GSUB", 5, &[3, 2, 0, 10, 0, 1, 1, 1])));
    assert!(taken(of(b"GSUB", 8, &[1, 14, 1, 14, 1, 14, 0, 1, 1, 1])));
    assert!(!taken(of(b"GSUB", 8, &[1, 14, 1, 0, 1, 14, 0, 1, 1, 1])));
    assert!(!taken(of(b"GSUB", 8, &[1, 14, 1, 14, 1, 40, 0, 1, 1, 1])));
    assert!(taken(of(b"GSUB", 1, &[1, 6, 0, 2, 1, 3, 5, 0])));
    assert!(!taken(of(b"GSUB", 1, &[1, 6, 0, 2, 1, 5, 3, 0])));
    let around = |offset: u16| [3, 0, 1, offset, 0, 0, 1, 1, 1];
    assert!(taken(of(b"GSUB", 6, &around(12))));
    assert!(!taken(of(b"GSUB", 6, &around(0))));
    assert!(!taken(of(b"GSUB", 6, &around(20))));
    assert!(taken(of(b"GSUB", 6, &[3, 1, 14, 1, 14, 0, 0, 1, 1, 1])));
    assert!(!taken(of(b"GSUB", 6, &[3, 1, 0, 1, 14, 0, 0, 1, 1, 1])));
    assert!(!taken(of(b"GSUB", 6, &[3, 0, 1, 14, 1, 0, 0, 1, 1, 1])));
    assert!(taken(of(b"GSUB", 6, &[1, 6, 0, 1, 1, 1])));
    let single = |form: u16| [1, 8, form, 50, 1, 1, 1];
    assert!(taken(of(b"GPOS", 1, &single(4))));
    assert!(!taken(of(b"GPOS", 1, &single(0x40))));
    for kind in [3, 7, 8, 9] {
        assert!(!taken(of(b"GPOS", kind, &single(4))));
    }
    let pair = |one: u16, two: u16, rows: u16, columns: u16| {
        [2, 16, one, two, 22, 22, rows, columns, 1, 1, 1, 1, 0, 0]
    };
    assert!(taken(of(b"GPOS", 2, &pair(4, 0, 1, 1))));
    assert!(!taken(of(b"GPOS", 2, &pair(0x10, 0, 1, 1))));
    assert!(!taken(of(b"GPOS", 2, &pair(4, 0x20, 1, 1))));
    assert!(!taken(of(b"GPOS", 2, &pair(4, 0, 0xffff, 0xffff))));
    let marked = |mark: u16, base: u16| [1, 12, 12, 1, 18, 24, 1, 1, 1, 1, 0, 10, 1, 4, mark, 0, 0, base, 0, 0];
    for kind in [4, 6] {
        assert!(taken(of(b"GPOS", kind, &marked(1, 1))));
        assert!(!taken(of(b"GPOS", kind, &marked(3, 1))));
    }
    let joined = |base: u16| [1, 12, 12, 1, 18, 28, 1, 1, 1, 1, 0, 6, 1, 0, 1, 4, 1, 4, base, 0, 0];
    assert!(taken(of(b"GPOS", 5, &joined(1))));
    assert!(!taken(of(b"GPOS", 5, &joined(3))));
    assert!(!taken(of(b"GPOS", 4, &[1, 12, 12, 0xffff, 18, 20, 1, 1, 1, 0, 0xffff])));
}

#[test]
fn outlines_with_boxes_that_do_not_fit_are_told() {
    let boxed = |low: i16, high: i16, long: bool| {
        let mut glyf = words(&[1]);
        for side in [low, 0, high, 0, 0] {
            glyf.extend_from_slice(&side.to_be_bytes());
        }
        let loca = if long { words(&[0, 0, 0, 12, 0, 12]) } else { words(&[0, 6, 6]) };
        let mut f = font_with(800, -200, vec![(b"glyf", glyf), (b"loca", loca)]);
        if long {
            let at = f.windows(4).position(|w| w == b"head").unwrap() + 8;
            let head = u32::from_be_bytes([f[at], f[at + 1], f[at + 2], f[at + 3]]) as usize;
            put(&mut f, head + 50, &1u16.to_be_bytes());
        }
        f
    };
    for long in [false, true] {
        assert!(fits_boxes(&boxed(-10, 32_757, long)));
        assert!(!fits_boxes(&boxed(-10, 32_758, long)));
        assert!(!fits_boxes(&boxed(32_758, -10, long)));
        assert_eq!(drawn(&boxed(-10, 32_757, long), &latin("A")), Some(1));
        assert_eq!(drawn(&boxed(-10, 32_758, long), &latin("A")), None);
    }
    assert!(fits_boxes(&font(800, -200)));
}

#[test]
fn texts_that_cannot_be_shaped_are_told() {
    let plain = font(800, -200);
    let hindi = |count: usize| latin(&"\u{915}".repeat(count));
    assert_eq!(drawn(&plain, &hindi(50)), Some(50));
    assert_eq!(drawn(&plain, &hindi(51)), None);
    let mut named = latin(&"A".repeat(51));
    named.script = name("deva");
    assert_eq!(drawn(&plain, &named), None);
    named.script = name("latn");
    assert_eq!(drawn(&plain, &named), Some(51));
    let mut other = hindi(300);
    other.script = name("latn");
    assert_eq!(drawn(&plain, &other), Some(300));
    let a = |count: usize| "A".repeat(count);
    assert_eq!(drawn(&plain, &latin(&a(2046))), Some(2046));
    assert_eq!(drawn(&plain, &latin(&a(2047))), None);
    assert!(fits_text(&plain, &"\u{e9}".repeat(511), None) && !fits_text(&plain, &"\u{e9}".repeat(512), None));
    assert!(fits_text(&plain, &"\u{e40}".repeat(204), None) && !fits_text(&plain, &"\u{e40}".repeat(205), None));
    assert!(!fits_text(&plain, &a(9000), None));
    let joining = with(b"GSUB", lookup(4, &[1, 6, 0, 1, 1, 1]));
    assert_eq!(drawn(&joining, &latin(&a(254))), Some(254));
    assert_eq!(drawn(&joining, &latin(&a(255))), None);
    let moving = with(b"GPOS", lookup(1, &[1, 8, 4, 50, 1, 1, 1]));
    assert_eq!(drawn(&moving, &latin(&a(1637))), Some(1637));
    assert_eq!(drawn(&moving, &latin(&a(1638))), None);
    let kerning = with(b"kern", words(&[0, 40]));
    assert!(fits_text(&kerning, &a(185), None) && !fits_text(&kerning, &a(186), None));
    let mut spoken = latin("A");
    spoken.language = name("de-x-hbot");
    assert_eq!(drawn(&plain, &spoken), Some(1));
    spoken.language = name("d\u{e9}");
    assert_eq!(drawn(&plain, &spoken), None);
    spoken.text = name("");
    assert_eq!(drawn(&plain, &spoken), Some(0));
}

#[test]
fn kerning_moves_the_glyphs_of_a_pair() {
    let kern = words(&[0, 1, 0, 20, 1, 1, 6, 0, 0, 1, 1, 0xff9c]);
    let f = with(b"kern", kern);
    let p = params("AA", 720.0, "left", "baseline");
    let rings = try_text_contours(&f, &p, n(0.0), 30, &mark, &fpu).unwrap();
    assert_eq!(flat(&rings), vec![vec![[1.0, 0.0]], vec![[501.0, 0.0]]]);
}

#[test]
fn curve_segments_follow_the_settings() {
    assert_eq!(curve_segments(n(3.0), 30, &fpu), 2);
    assert_eq!(curve_segments(n(64.0), 30, &fpu), 8);
    assert_eq!(curve_segments(n(65.0), 30, &fpu), 9);
    assert_eq!(curve_segments(n(0.0), 5, &fpu), 3);
    assert_eq!(curve_segments(n(0.0), 30, &fpu), 8);
    assert_eq!(curve_segments(n(0.0), 900, &fpu), 16);
    assert_eq!(curve_segments(n(f64::NAN), 30, &fpu), 8);
}
