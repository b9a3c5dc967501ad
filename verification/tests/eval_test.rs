use navi::eval::exec;
use navi::object::Object;
use navi::value::Ref;
use navi::value::any::Any;
use navi::value::number::make_integer;

fn new_object() -> Object {
    let mut obj = Object::new(0);
    obj.register_core_global();
    obj
}

fn run(program: &str, obj: &mut Object) -> Ref {
    let mut peers: Vec<Object> = Vec::new();
    match exec(program, obj, &mut peers) {
        Ok(r) => r,
        Err(_) => panic!("evaluation failed: {}", program),
    }
}

fn integer(n: i64, ans_obj: &mut Object) -> Ref {
    match make_integer(ans_obj, n) {
        Ok(r) => r,
        Err(_) => panic!("out of memory"),
    }
}

fn same(result: Ref, obj: &Object, ans: Ref, ans_obj: &Object) -> bool {
    Any::eq(obj.heap(), result, ans_obj.heap(), ans)
}

#[test]
fn syntax_if_test() {
    let obj = &mut new_object();
    let ans_obj = &mut new_object();

    let result = run("(if (= 1 1) 10 100)", obj);
    let ans = integer(10, ans_obj);
    assert!(same(result, obj, ans, ans_obj));

    let result = run("(if (= 1 2) 10 100)", obj);
    let ans = integer(100, ans_obj);
    assert!(same(result, obj, ans, ans_obj));

    let result = run("(if (= 1 2) 10)", obj);
    assert_eq!(result, Ref::False);
}

#[test]
fn syntax_cond_test() {
    let obj = &mut new_object();
    let ans_obj = &mut new_object();

    let result = run("(cond ((= 1 1) 1) ((= 1 1) 2) (else 3))", obj);
    let ans = integer(1, ans_obj);
    assert!(same(result, obj, ans, ans_obj));

    let result = run("(cond ((= 1 2) 1) ((= 1 1) 2) (else 3))", obj);
    let ans = integer(2, ans_obj);
    assert!(same(result, obj, ans, ans_obj));

    let result = run("(cond ((= 1 2) 1) ((= 1 3) 2) (else 3))", obj);
    let ans = integer(3, ans_obj);
    assert!(same(result, obj, ans, ans_obj));

    let result = run("(cond ((= 1 2) 1) ((= 1 3) 2))", obj);
    assert_eq!(result, Ref::False);

    let result = run("(cond)", obj);
    assert_eq!(result, Ref::False);
}

#[test]
fn syntax_let_test() {
    let obj = &mut new_object();
    let ans_obj = &mut new_object();

    let result = run("(let a 1)", obj);
    let ans = integer(1, ans_obj);
    assert!(same(result, obj, ans, ans_obj));

    let result = run("a", obj);
    let ans = integer(1, ans_obj);
    assert!(same(result, obj, ans, ans_obj));

    run("(let a 2)", obj);
    let result = run("a", obj);
    let ans = integer(2, ans_obj);
    assert!(same(result, obj, ans, ans_obj));

    let result = run("(local (let a 3) a)", obj);
    let ans = integer(3, ans_obj);
    assert!(same(result, obj, ans, ans_obj));

    let result = run("(local (let a 3) (let a 4) a)", obj);
    let ans = integer(4, ans_obj);
    assert!(same(result, obj, ans, ans_obj));

    let result = run("a", obj);
    let ans = integer(2, ans_obj);
    assert!(same(result, obj, ans, ans_obj));

    run("(local (let-global a 3))", obj);
    let result = run("a", obj);
    let ans = integer(3, ans_obj);
    assert!(same(result, obj, ans, ans_obj));
}

#[test]
fn syntax_fun_test() {
    let obj = &mut new_object();
    let ans_obj = &mut new_object();

    let result = run("((fun (a) (+ 10 a)) 1)", obj);
    let ans = integer(11, ans_obj);
    assert!(same(result, obj, ans, ans_obj));

    let result = run("((fun (a b) (+ a b) (+ ((fun (a) (+ a 10)) b) a)) 100 200)", obj);
    let ans = integer(310, ans_obj);
    assert!(same(result, obj, ans, ans_obj));
}

#[test]
fn syntax_local_test() {
    let obj = &mut new_object();
    let ans_obj = &mut new_object();

    let result = run("(local (let a 1) (+ 10 a))", obj);
    let ans = integer(11, ans_obj);
    assert!(same(result, obj, ans, ans_obj));

    let result = run("(local (let a 100) (let b 200) (+ a b) (+ (local (let a b) (+ a 10)) a))", obj);
    let ans = integer(310, ans_obj);
    assert!(same(result, obj, ans, ans_obj));
}

#[test]
fn syntax_and_or() {
    let obj = &mut new_object();

    assert_eq!(run("(and)", obj), Ref::True);
    assert_eq!(run("(and true true)", obj), Ref::True);
    assert_eq!(run("(and true true false)", obj), Ref::False);
    assert_eq!(run("(or)", obj), Ref::False);
    assert_eq!(run("(or false (= 1 1))", obj), Ref::True);
}

#[test]
fn syntax_match() {
    let obj = &mut new_object();
    let ans_obj = &mut new_object();

    let result = run("(match 1 (2 2) (3 3) (4 4) (1 1))", obj);
    let ans = integer(1, ans_obj);
    assert!(same(result, obj, ans, ans_obj));

    let result = run("(match 1 (2 2))", obj);
    assert_eq!(result, Ref::False);

    let result = run("(match '((1 2) 3) (((4 5) 6) 1) (((7 8) 9) 2) ((10 (11 12)) 3) (((1 2) 3) 4))", obj);
    let ans = integer(4, ans_obj);
    assert!(same(result, obj, ans, ans_obj));

    let result = run("(match {{1 2} 3} ({{4 5} 6} 1) ({{1 2} 3} 2) ({10 {11 12}} 3))", obj);
    let ans = integer(2, ans_obj);
    assert!(same(result, obj, ans, ans_obj));

    let result = run("(match [[1 2] 3] ([4 [5 6]] 1) ([[7 8] 9] 2) ([1 [2 3]] 3))", obj);
    assert_eq!(result, Ref::False);

    let result = run(
        "(match {{1 2} [3 '(4 5)]} ({{4 5} 6} 1) ((10 (11 12)) 2) ({{1 2} 3 (4 5)} 3) ({{1 2} [3 (4 5)]} 4))",
        obj,
    );
    let ans = integer(4, ans_obj);
    assert!(same(result, obj, ans, ans_obj));

    let result = run("(match {1 2 3} ({1 3 2} 1) ({1 2 3} 2))", obj);
    let ans = integer(2, ans_obj);
    assert!(same(result, obj, ans, ans_obj));

    let result = run("(match 1 (@x x))", obj);
    let ans = integer(1, ans_obj);
    assert!(same(result, obj, ans, ans_obj));

    let result = run("(match 1 (@x x) (@a (+ a a)))", obj);
    let ans = integer(1, ans_obj);
    assert!(same(result, obj, ans, ans_obj));

    let result = run("(match {1 2} ({@a @b} (+ a b)))", obj);
    let ans = integer(3, ans_obj);
    assert!(same(result, obj, ans, ans_obj));

    let result = run("(match {1 '(2 3) [4 '(5)]} ({@a @_ [@b @_]} (+ a b)))", obj);
    let ans = integer(5, ans_obj);
    assert!(same(result, obj, ans, ans_obj));
}

#[test]
fn test_apply() {
    let obj = &mut new_object();
    let ans_obj = &mut new_object();

    let result = run("(apply + '(1 2 3 4))", obj);
    let ans = integer(10, ans_obj);
    assert!(same(result, obj, ans, ans_obj));

    let result = run("(apply + 1 '(2 3 4))", obj);
    let ans = integer(10, ans_obj);
    assert!(same(result, obj, ans, ans_obj));

    let result = run("(apply + 1 2 '(3 4))", obj);
    let ans = integer(10, ans_obj);
    assert!(same(result, obj, ans, ans_obj));

    let result = run("(apply (fun (n) (sleep 1000) (+ n 1)) '(1))", obj);
    let ans = integer(2, ans_obj);
    assert!(same(result, obj, ans, ans_obj));
}
