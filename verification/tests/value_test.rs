use navi::object::Object;
use navi::object::mm::Cell;
use navi::read::{Reader, read};
use navi::value::any::Any;
use navi::value::reply::{Reply, force};
use navi::value::value_clone;
use navi::value::text::display;

fn text(r: navi::value::Ref, obj: &Object) -> String {
    let mut out = Vec::new();
    display(obj, r, &mut out);
    out.into_iter().collect()
}

#[test]
fn clone_keeps_the_value() {
    let src = &mut Object::new(0);
    let dst = &mut Object::new(1);
    let mut reader = Reader::from_str("(1 [\"two\" three] {:four 5.5 (6)} 123456789012345)");
    let v = read(&mut reader, src).ok().unwrap();
    let c = value_clone(src, v, dst).ok().unwrap();
    assert!(Any::eq(src.heap(), v, dst.heap(), c));
    assert_eq!(text(c, dst), "(1 [two three] {four 5.5 (6)} 123456789012345)");
}

#[test]
fn force_replaces_replies_and_is_idempotent() {
    let obj = &mut Object::new(0);
    let mut reader = Reader::from_str("(1 2)");
    let v = read(&mut reader, obj).ok().unwrap();
    let reply = Reply::allocate(obj, v).ok().unwrap();
    let arr = obj.allocate(Cell::Array(vec![reply, navi::value::Ref::Fixnum(3)])).ok().unwrap();
    assert_eq!(text(arr, obj), "[#reply 3]");
    let once = force(obj, arr).ok().unwrap();
    assert_eq!(text(once, obj), "[(1 2) 3]");
    let twice = force(obj, once).ok().unwrap();
    assert!(Any::eq(obj.heap(), once, obj.heap(), twice));
}

#[test]
fn world_set_get() {
    let mut world = navi::world::World::new();
    let k1: Vec<char> = "symbol".chars().collect();
    let k2: Vec<char> = "hoge".chars().collect();
    let k3: Vec<char> = "bar".chars().collect();
    world.set(&k1, navi::value::Ref::Fixnum(1));
    world.set(&k2, navi::value::Ref::Fixnum(2));
    assert_eq!(world.get(&k1), Some(navi::value::Ref::Fixnum(1)));
    assert_eq!(world.get(&k2), Some(navi::value::Ref::Fixnum(2)));
    assert_eq!(world.get(&k3), None);
    world.set(&k1, navi::value::Ref::True);
    assert_eq!(world.get(&k1), Some(navi::value::Ref::True));
}

#[test]
fn check_reply_takes_the_answer() {
    let obj = &mut Object::new(0);
    let mut reader = Reader::from_str("(1 2)");
    let v = read(&mut reader, obj).ok().unwrap();
    let reply = Reply::allocate(obj, v).ok().unwrap();
    let mut cell = obj.allocate(Cell::Tuple(vec![reply, navi::value::Ref::Fixnum(3)])).ok().unwrap();
    assert_eq!(text(cell, obj), "{#reply 3}");
    assert_eq!(navi::value::check_reply(&mut cell, obj).ok(), Some(true));
    assert_eq!(text(cell, obj), "{(1 2) 3}");
    let mut plain = navi::value::Ref::Fixnum(7);
    assert_eq!(navi::value::check_reply(&mut plain, obj).ok(), Some(true));
    assert_eq!(plain, navi::value::Ref::Fixnum(7));
}
