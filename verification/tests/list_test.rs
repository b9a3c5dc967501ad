use navi::object::Object;
use navi::value::Ref;
use navi::value::any::Any;
use navi::value::list::{List, ListBuilder};
use navi::value::number::make_integer;

#[test]
fn test_builder() {
    let obj = &mut Object::new(0);
    let ans_obj = &mut Object::new(1);

    let builder = ListBuilder::new();
    let result = builder.get(obj).ok().unwrap();
    assert_eq!(result, List::nil());

    let mut builder = ListBuilder::new();
    let one = make_integer(obj, 1).ok().unwrap();
    let two = make_integer(obj, 2).ok().unwrap();
    let three = make_integer(obj, 3).ok().unwrap();
    builder.push(one);
    builder.push(two);
    builder.push(three);
    let result = builder.get(obj).ok().unwrap();

    let a1 = make_integer(ans_obj, 1).ok().unwrap();
    let a2 = make_integer(ans_obj, 2).ok().unwrap();
    let a3 = make_integer(ans_obj, 3).ok().unwrap();
    let ans: Ref = List::nil();
    let ans = List::cons(ans_obj, a3, ans).ok().unwrap();
    let ans = List::cons(ans_obj, a2, ans).ok().unwrap();
    let ans = List::cons(ans_obj, a1, ans).ok().unwrap();

    assert!(Any::eq(obj.heap(), result, ans_obj.heap(), ans));
}

fn run(program: &str, obj: &mut Object, peers: &mut Vec<Object>) -> Ref {
    match navi::eval::exec(program, obj, peers) {
        Ok(r) => r,
        Err(_) => panic!("evaluation failed: {}", program),
    }
}

#[test]
fn test_construct() {
    let obj = &mut Object::new(0);
    obj.register_core_global();
    let peers = &mut Vec::new();

    let mut builder = ListBuilder::new();
    for n in 1..8 {
        let v = make_integer(obj, n).ok().unwrap();
        builder.push(v);
    }
    let ans = builder.get(obj).ok().unwrap();
    let slot = obj.capture(ans);

    let new_obj_ref = run("(let obj (spawn))", obj, peers);
    assert!(navi::object::object_switch(obj, peers, new_obj_ref).is_ok());
    run("(def-recv @n n)", obj, peers);
    assert!(navi::object::return_object_switch(obj, peers));

    let check = |program: &str, obj: &mut Object, peers: &mut Vec<Object>| {
        let result = run(program, obj, peers);
        let ans = obj.captured_value(slot);
        assert!(Any::eq(obj.heap(), result, obj.heap(), ans), "{}", program);
    };

    let result = run("(list)", obj, peers);
    assert!(List::is_nil(result));

    check("(list 1 2 3 4 5 6 7)", obj, peers);
    check("(force (list 1 (send obj 2) 3 4 (send obj 5) 6 (send obj 7)))", obj, peers);
    check("(force (list (send obj 1) 2 3 4 5 6 7))", obj, peers);
    check("(force (list 1 2 3 4 5 6 (send obj 7)))", obj, peers);

    let result = run("(append)", obj, peers);
    assert!(List::is_nil(result));

    check("(append '(1 2) '(3 4) '(5 6 7))", obj, peers);
    check("(append '(1 2) '(3 4 5 6 7))", obj, peers);
    check("(append '(1 2 3 4 5 6 7))", obj, peers);
    check("(force (append (list (send obj 1) 2) '(3 4 5 6 7)))", obj, peers);
    check("(force (append (list 1 (send obj 2)) (list 3 (send obj 4)) '(5 6 7)))", obj, peers);
    check("(force (append (list 1 (send obj 2)) (list 3 (send obj 4)) (list 5 6 (send obj 7))))", obj, peers);
    check("(force (append (list (send obj 1) 2) '(3 4) '(5 6 7)))", obj, peers);
    check("(force (append '(1 2) '(3 4) (list 5 6 (send obj 7))))", obj, peers);
}
