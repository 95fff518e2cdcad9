//! Scopes, objects, and the names that module bodies read.

use std::rc::Rc;

use fab_lang::ast::Name;
use fab_lang::num::FloatOp;
use fab_lang::object::ObjectMap;
use fab_lang::read_set::{ReadStack, Reads};
use fab_lang::scope::{Scope, Store};
use fab_lang::value::Value;

fn fpu(op: FloatOp, a: u64, b: u64) -> u64 {
    let (x, y) = (f64::from_bits(a), f64::from_bits(b));
    let r = match op {
        FloatOp::Add => x + y,
        FloatOp::Sub => x - y,
        FloatOp::Mul => x * y,
        FloatOp::Div => x / y,
        FloatOp::Rem => x % y,
        FloatOp::Pow => x.powf(y),
        FloatOp::Sqrt => x.sqrt(),
        FloatOp::Floor => x.floor(),
        FloatOp::Sin => x.sin(),
        FloatOp::Cos => x.cos(),
        FloatOp::Tan => x.tan(),
        FloatOp::Asin => x.asin(),
        FloatOp::Acos => x.acos(),
        FloatOp::Atan => x.atan(),
        FloatOp::Atan2 => x.atan2(y),
        FloatOp::Round => x.round(),
        FloatOp::Degrees => x.to_degrees(),
        FloatOp::FromInt => (a as i64) as f64,
        FloatOp::Midpoint => x + (y - x) / 2.0,
    };
    r.to_bits()
}

fn name(s: &str) -> Name {
    Rc::new(s.to_string())
}

fn num(x: f64) -> Value {
    Value::Num(x.to_bits())
}

fn is_num(v: &Value, x: f64) -> bool {
    matches!(v, Value::Num(n) if *n == x.to_bits())
}

#[test]
fn child_shadows_parent_without_mutating_it() {
    let mut store = Store::new();
    let mut root = Scope::new(&mut store);
    root.bind(&mut store, name("x"), num(1.0));
    let mut child = root.child(&mut store);
    child.bind(&mut store, name("x"), num(2.0));
    assert!(is_num(&child.lookup(&store, "x"), 2.0));
    assert!(is_num(&root.lookup(&store, "x"), 1.0));
}

#[test]
fn child_falls_through_to_parent() {
    let mut store = Store::new();
    let mut root = Scope::new(&mut store);
    root.bind(&mut store, name("outer"), num(7.0));
    let child = root.child(&mut store).child(&mut store);
    assert!(is_num(&child.lookup(&store, "outer"), 7.0));
    assert!(matches!(child.lookup(&store, "missing"), Value::Undef));
}

#[test]
fn special_vars_resolve_through_the_chain() {
    let mut store = Store::new();
    let child = Scope::new(&mut store).child(&mut store).child(&mut store);
    assert_eq!(child.fn_fa_fs(&store), (0.0_f64.to_bits(), 12.0_f64.to_bits(), 2.0_f64.to_bits()));
    let mut root = Scope::new(&mut store);
    root.bind(&mut store, name("$fn"), num(64.0));
    let child = root.child(&mut store);
    assert_eq!(child.fn_fa_fs(&store).0, 64.0_f64.to_bits());
    assert_eq!(child.fn_fa_fs(&store), (64.0_f64.to_bits(), 12.0_f64.to_bits(), 2.0_f64.to_bits()));
}

#[test]
fn binding_a_clone_leaves_the_original_alone() {
    let mut store = Store::new();
    let root = Scope::new(&mut store);
    let mut clone = root;
    clone.bind(&mut store, name("y"), num(9.0));
    assert!(is_num(&clone.lookup(&store, "y"), 9.0));
    assert!(matches!(root.lookup(&store, "y"), Value::Undef));
}

#[test]
fn non_number_special_var_is_zero() {
    let mut store = Store::new();
    let mut root = Scope::new(&mut store);
    root.bind(&mut store, name("$fn"), Value::string("nonsense"));
    assert_eq!(root.fn_fa_fs(&store).0, 0.0_f64.to_bits());
}

#[test]
fn set_get_remove_keep_insertion_order() {
    let mut o = ObjectMap::new();
    o.set(name("a"), num(1.0));
    o.set(name("b"), num(2.0));
    o.set(name("a"), num(3.0));
    assert_eq!(o.len(), 2);
    assert!(is_num(o.get("a").unwrap(), 3.0));
    let keys: Vec<String> = o.keys().iter().map(|k| k.to_string()).collect();
    assert_eq!(keys, ["a", "b"]);
    o.remove("a");
    assert_eq!(o.len(), 1);
    assert!(!o.has_key("a"));
    assert!(is_num(o.get("b").unwrap(), 2.0), "index survives removal");
}

#[test]
fn equality_is_key_set_plus_values_not_order() {
    let mut a = ObjectMap::new();
    a.set(name("x"), num(1.0));
    a.set(name("y"), num(2.0));
    let mut b = ObjectMap::new();
    b.set(name("y"), num(2.0));
    b.set(name("x"), num(1.0));
    assert!(a.eq(&b, &fpu));
    assert!(!a.same_bits(&b));
    b.set(name("y"), num(9.0));
    assert!(!a.eq(&b, &fpu));
}

#[test]
fn records_and_propagates() {
    let mut st = ReadStack::new();
    st.record(&name("$fn"), Some(&num(8.0)));
    st.push();
    st.record(&name("$fn"), Some(&num(100.0)));
    st.record(&name("$fn"), Some(&num(999.0)));
    st.record(&name("$foo"), None);
    st.push();
    st.record(&name("$bar"), Some(&num(2.0)));
    let inner: Reads = st.pop();
    assert_eq!(inner.len(), 1);
    assert!(is_num(inner.get(&name("$bar")).unwrap(), 2.0));
    let outer: Reads = st.pop();
    assert!(is_num(outer.get(&name("$fn")).unwrap(), 100.0), "first-read-wins");
    assert!(matches!(outer.get(&name("$foo")).unwrap(), Value::Undef), "unbound is undef");
    assert!(is_num(outer.get(&name("$bar")).unwrap(), 2.0), "nested read propagated up");
    st.record(&name("$baz"), Some(&num(1.0)));
    st.push();
    assert!(st.pop().is_empty());
}

#[test]
fn agreement_is_bit_exact() {
    let mut reads = Reads::new();
    reads.insert(&name("$fn"), num(100.0));
    reads.insert(&name("$gap"), Value::Undef);
    let mut store = Store::new();
    let mut s = Scope::new(&mut store);
    s.bind(&mut store, name("$fn"), num(100.0));
    assert!(reads.agrees(&store, &s));
    let mut s2 = Scope::new(&mut store);
    s2.bind(&mut store, name("$fn"), num(50.0));
    assert!(!reads.agrees(&store, &s2));
    let mut s3 = Scope::new(&mut store);
    s3.bind(&mut store, name("$fn"), num(100.0));
    s3.bind(&mut store, name("$gap"), num(0.0));
    assert!(!reads.agrees(&store, &s3));
}

#[test]
fn values_are_the_same_to_the_bit() {
    let nan = Value::Num(f64::NAN.to_bits());
    assert!(nan.same_bits(&nan) && !nan.eq(&nan, &fpu));
    assert!(!num(0.0).same_bits(&num(-0.0)) && num(0.0).eq(&num(-0.0), &fpu));
    let flat = Value::num_list(vec![1.0_f64.to_bits()]);
    let list = Value::list(vec![num(1.0)]);
    assert!(flat.eq(&list, &fpu) && !flat.same_bits(&list));
}

#[test]
fn reads_stand_by_name() {
    let mut reads = Reads::new();
    for n in ["$t", "$fn", "$fa", "$t", "$fn"] {
        reads.insert(&name(n), num(1.0));
    }
    let order: Vec<&str> = reads.entries.iter().map(|e| e.0.as_str()).collect();
    assert_eq!(order, ["$fa", "$fn", "$t"]);
}
