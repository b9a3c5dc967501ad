use navi::eval::exec;
use navi::object::{Object, object_switch, return_object_switch};
use navi::value::Ref;
use navi::value::any::Any;
use navi::value::number::make_integer;
use navi::value::reply::Reply;

fn new_object(id: usize) -> Object {
    let mut obj = Object::new(id);
    obj.register_core_global();
    obj
}

fn run(program: &str, obj: &mut Object, peers: &mut Vec<Object>) -> Ref {
    match exec(program, obj, peers) {
        Ok(r) => r,
        Err(_) => panic!("evaluation failed: {}", program),
    }
}

fn is_int(r: Ref, obj: &Object, n: i64) -> bool {
    let mut ans_obj = Object::new(1000);
    let ans = make_integer(&mut ans_obj, n).ok().unwrap();
    Any::eq(obj.heap(), r, ans_obj.heap(), ans)
}

#[test]
fn object_ref_test() {
    let obj = &mut new_object(0);
    let peers = &mut Vec::new();

    let new_obj_ref = run("(let obj (spawn))", obj, peers);
    assert!(object_switch(obj, peers, new_obj_ref).is_ok());
    run("(def-recv 1 10)", obj, peers);
    run("(def-recv 2 20)", obj, peers);
    run("(def-recv 3 30)", obj, peers);
    run("(def-recv (@a @b) (+ a b))", obj, peers);
    assert!(return_object_switch(obj, peers));

    let ans = run("(send obj 1)", obj, peers);
    assert!(Reply::is(obj, ans));
    let value = Reply::try_get_reply_value(obj, ans).unwrap();
    assert!(is_int(value, obj, 10));

    let ans = run("(let a (send obj 2))", obj, peers);
    assert!(Reply::is(obj, ans));

    let ans = run("(force a)", obj, peers);
    assert!(is_int(ans, obj, 20));

    let ans = run("(+ (send obj 3) 1)", obj, peers);
    assert!(is_int(ans, obj, 31));

    let ans = run("(force (send obj '(1 2)))", obj, peers);
    assert!(is_int(ans, obj, 3));

    let ans = run("(force (send obj 4))", obj, peers);
    assert_eq!(ans, Ref::False);

    let ans = run("(let l (cons (send obj 1) (cons 1 '())))", obj, peers);
    let head = navi::value::list::List::head(obj, ans);
    assert!(Reply::is(obj, head));
    let second = navi::value::list::List::head(obj, navi::value::list::List::tail(obj, ans));
    assert!(is_int(second, obj, 1));

    let ans = run("(list-ref l 0)", obj, peers);
    assert!(Reply::is(obj, ans));
    let ans = run("(force (list-ref l 0))", obj, peers);
    assert!(is_int(ans, obj, 10));
    let ans = run("(list-ref l 1)", obj, peers);
    assert!(is_int(ans, obj, 1));

    run("(let a [(send obj 1) (send obj 2)])", obj, peers);
    let ans = run("(array-ref a 0)", obj, peers);
    assert!(Reply::is(obj, ans));
    let ans = run("(force (array-ref a 1))", obj, peers);
    assert!(is_int(ans, obj, 20));

    run("(let t {(send obj 1) (send obj 2)})", obj, peers);
    let ans = run("(tuple-ref t 0)", obj, peers);
    assert!(Reply::is(obj, ans));
    let ans = run("(force (tuple-ref t 1))", obj, peers);
    assert!(is_int(ans, obj, 20));
}

#[test]
fn test_remove_ref() {
    let obj = &mut new_object(0);
    let peers = &mut Vec::new();

    let new_obj_ref = run("(let obj (spawn))", obj, peers);
    assert!(object_switch(obj, peers, new_obj_ref).is_ok());

    let new_obj_ref = run("(let obj2 (spawn))", obj, peers);
    run("(def-recv 1 (send obj2 2))", obj, peers);

    assert!(object_switch(obj, peers, new_obj_ref).is_ok());
    run("(def-recv 2 20)", obj, peers);

    assert!(return_object_switch(obj, peers));
    assert!(return_object_switch(obj, peers));

    let ans = run("(let a (send obj 1))", obj, peers);
    run("(let obj true)", obj, peers);
    assert!(Reply::is(obj, ans));

    let ans = run("(force a)", obj, peers);
    assert!(is_int(ans, obj, 20));
}
