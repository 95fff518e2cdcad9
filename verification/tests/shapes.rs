//! Shapes: what they are made with, how they are grouped, and how they are remembered.

use std::rc::Rc;

use fab_lang::ast::Name;
use fab_lang::capture::{CaptureStack, ReadValue};
use fab_lang::chars::{dec, hex, text_rank, Rank};
use fab_lang::geo::{boolean_of, eval_top, mesh_of, union_of, Geo, GeoNode, Mesh, Shape2D};
use fab_lang::message::{Error, Message};
use fab_lang::mod_cache::{worth_caching, ModCache, ModKey};
use fab_lang::modules::{child_at, native_module_runs, Modules};
use fab_lang::num::{equal, less, next_up, rank, to_i64, to_u32, to_u64, whole};
use fab_lang::scope::{Scope, Store};
use fab_lang::value::Value;

fn name(s: &str) -> Name {
    Rc::new(s.to_string())
}

fn num(x: f64) -> Value {
    Value::Num(x.to_bits())
}

fn solid() -> Geo {
    Geo::D3(GeoNode::Leaf(Mesh::new()))
}

fn flat() -> Geo {
    Geo::D2(Shape2D::Polygon(Vec::new()))
}

fn nothing() -> Geo {
    Geo::D3(GeoNode::Empty)
}

fn said(log: &[Message]) -> Vec<String> {
    log.iter().map(Message::render).collect()
}

#[test]
fn a_group_has_the_dimension_of_its_first_object() {
    let mut log = Vec::new();
    let g = union_of(vec![nothing(), flat(), solid(), flat(), solid()], &mut log);
    assert!(matches!(&g, Geo::D2(Shape2D::Union(kids)) if kids.len() == 2), "{g:?}");
    assert_eq!(
        said(&log),
        [
            "WARNING: Mixing 2D and 3D objects is not supported",
            "WARNING: Ignoring 3D child object for 2D operation",
            "WARNING: Ignoring 3D child object for 2D operation",
        ]
    );
    let mut log = Vec::new();
    assert!(matches!(union_of(vec![solid(), nothing()], &mut log), Geo::D3(GeoNode::Leaf(_))));
    assert!(matches!(union_of(Vec::new(), &mut log), Geo::D3(GeoNode::Empty)));
    let d = boolean_of("difference", vec![solid(), solid()], &mut log);
    assert!(matches!(&d, Geo::D3(GeoNode::Difference(kids)) if kids.len() == 2), "{d:?}");
    assert!(log.is_empty());
}

#[test]
fn several_objects_at_the_top_are_parts() {
    let mut log = Vec::new();
    let two = eval_top(vec![solid(), solid()], Vec::new(), &mut log);
    assert!(matches!(&two, Geo::D3(GeoNode::Parts(kids)) if kids.len() == 2), "{two:?}");
    let one = eval_top(vec![solid()], Vec::new(), &mut log);
    assert!(matches!(one, Geo::D3(GeoNode::Leaf(_))));
    let root = eval_top(vec![solid(), solid(), solid()], vec![flat()], &mut log);
    assert!(matches!(root, Geo::D2(Shape2D::Polygon(_))));
    assert!(mesh_of(solid()).is_ok());
    assert!(matches!(mesh_of(flat()), Err(Error::Unimplemented(_))));
}

#[test]
fn captures_record_what_crosses_them_and_change_nothing() {
    let mut store = Store::new();
    let mut root = Scope::new(&mut store);
    root.bind(&mut store, name("$q"), num(5.0));
    root.bind(&mut store, name("x"), num(1.0));
    let call = Scope::call_frame(&mut store, &root, &root);
    let mut quiet = CaptureStack::new();
    let mut stack = CaptureStack::new();
    stack.open_capture(call.boundary_id(&store));
    for n in ["$q", "x", "$unset", "$q"] {
        let a = stack.read(&store, call, n);
        let b = quiet.read(&store, call, n);
        assert_eq!(a.is_some(), b.is_some());
        assert!(a.unwrap_or(Value::Undef).same_bits(&b.unwrap_or(Value::Undef)));
    }
    let reads = stack.capture_reads(call.boundary_id(&store)).expect("open");
    assert_eq!(reads.iter().map(|(n, _)| n.as_str()).collect::<Vec<_>>(), ["$q", "$unset"]);
    assert!(matches!(&reads[0].1, ReadValue::Bound(v) if v.same_bits(&num(5.0))));
    assert!(matches!(reads[1].1, ReadValue::Unbound));
    stack.close_capture(call.boundary_id(&store));
    assert!(!stack.captures_active());
}

#[test]
fn a_key_keeps_its_newest_traces() {
    let mut store = Store::new();
    let root = Scope::new(&mut store);
    let key = ModKey::new(7, &root, &vec![num(1.0)]);
    let mut cache = ModCache::new();
    let mut captures = CaptureStack::new();
    for i in 0..9 {
        let reads = vec![(name("$q"), ReadValue::Bound(num(f64::from(i))))];
        cache.put(ModKey::new(7, &root, &vec![num(1.0)]), Rc::new(solid()), reads, 100);
    }
    let mut asked = Vec::new();
    for i in 0..9 {
        let mut at = root;
        at.bind(&mut store, name("$q"), num(f64::from(i)));
        asked.push(cache.get(&key, &store, &at, &mut captures).is_some());
    }
    assert_eq!(asked, [false, true, true, true, true, true, true, true, true]);
    let other = ModKey::new(8, &root, &vec![num(1.0)]);
    assert!(cache.get(&other, &store, &root, &mut captures).is_none());
    let c = cache.stats();
    assert_eq!((c.stores, c.hits, c.misses, cache.live_keys()), (9, 8, 2, 1));
    let wide = vec![(name("$q"), ReadValue::Bound(Value::num_list(vec![0; 11])))];
    cache.put(other, Rc::new(solid()), wide, 10);
    cache.note_decline(true, true, false);
    let c = cache.stats();
    assert_eq!((c.stores, c.declined_wide, c.declined_msg, c.declined_draws, c.declined_impure), (9, 1, 1, 1, 0));
    assert!(worth_caching(&vec![Value::num_list(vec![0; 9]), num(1.0)], 10));
    assert!(!worth_caching(&vec![Value::num_list(vec![0; 10]), num(1.0)], 10));
}

#[test]
fn compiled_modules_nest_so_far_only() {
    let mut m = Modules {
        islands: Vec::new(),
        local_modules: Vec::new(),
        module_depth: 0,
        peak_module_depth: 0,
        native_depth: 0,
        native_runs: 0,
        native_child_declines: 0,
        children_stack: Vec::new(),
    };
    let levels = (0..70).filter(|_| m.enter_native()).count();
    assert_eq!(levels, 64);
    m.leave_native();
    assert!(m.enter_native() && !m.enter_native());
    m.enter_module();
    m.enter_module();
    m.leave_module();
    assert_eq!((m.module_depth, m.peak_module_depth), (1, 2));
    m.note_native_run();
    assert_eq!(native_module_runs(&m), 1);
}

#[test]
fn children_are_picked_by_whole_numbers() {
    assert_eq!(child_at(2.0_f64.to_bits()), Some(2));
    assert_eq!(child_at((-0.0_f64).to_bits()), Some(0));
    assert_eq!(child_at(2.9_f64.to_bits()), None);
    assert_eq!(child_at(f64::INFINITY.to_bits()), None);
    assert_eq!(child_at((-1.0_f64).to_bits()), None);
    assert_eq!(child_at(f64::NAN.to_bits()), None);
}

#[test]
fn doubles_are_told_apart_by_their_bits() {
    let b = f64::to_bits;
    let samples = [0.0, -0.0, 1.0, -1.0, 0.5, -2.5, 1e300, -1e300, f64::INFINITY, f64::NEG_INFINITY, f64::NAN];
    for x in samples {
        for y in samples {
            assert_eq!(equal(b(x), b(y)), x == y, "{x} == {y}");
            assert_eq!(less(b(x), b(y)), x < y, "{x} < {y}");
            assert_eq!(rank(b(x), b(y)).is_none(), x.partial_cmp(&y).is_none());
        }
        assert_eq!(to_i64(b(x)), x as i64, "{x}");
        assert_eq!(to_u64(b(x)), x as u64, "{x}");
        assert_eq!(to_u32(b(x)), x as u32, "{x}");
        assert_eq!(whole(b(x)), x.is_finite() && x.fract() == 0.0, "{x}");
    }
    assert_eq!(next_up(b(1.0)), b(1.0_f64.next_up()));
    assert_eq!(next_up(b(-1.0)), b((-1.0_f64).next_up()));
}

#[test]
fn texts_are_ordered_by_code_points() {
    assert_eq!(text_rank("abc", "abd"), Rank::Less);
    assert_eq!(text_rank("ab", "abc"), Rank::Less);
    assert_eq!(text_rank("\u{e9}", "z"), Rank::Greater);
    assert_eq!(text_rank("", ""), Rank::Equal);
    assert_eq!((dec(0), dec(1_234_567_890), hex(0xdead_beef)), ("0".into(), "1234567890".into(), "deadbeef".into()));
}
