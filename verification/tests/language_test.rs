use navi::err::Exception;
use navi::eval::{EvalError, exec};
use navi::object::Object;
use navi::value::{Ref, TypeInfo, get_typeinfo};
use navi::value::func::is_type;
use navi::value::list::List;
use navi::value::any::Any;
use navi::value::number::make_integer;
use navi::value::text::display;

fn new_object() -> Object {
    let mut obj = Object::new(0);
    obj.register_core_global();
    obj
}

fn run(program: &str, obj: &mut Object) -> Ref {
    let mut peers: Vec<Object> = Vec::new();
    match exec(program, obj, &mut peers) {
        Ok(r) => r,
        Err(_) => panic!("evaluation failed: {}", program),
    }
}

fn run_err(program: &str, obj: &mut Object) -> EvalError {
    let mut peers: Vec<Object> = Vec::new();
    match exec(program, obj, &mut peers) {
        Ok(_) => panic!("evaluation succeeded: {}", program),
        Err(e) => e,
    }
}

fn text(r: Ref, obj: &Object) -> String {
    let mut out = Vec::new();
    display(obj, r, &mut out);
    out.into_iter().collect()
}

fn is_int(r: Ref, obj: &Object, n: i64) -> bool {
    let mut ans_obj = Object::new(1000);
    let ans = make_integer(&mut ans_obj, n).ok().unwrap();
    Any::eq(obj.heap(), r, ans_obj.heap(), ans)
}

fn message(e: &EvalError, obj: &Object) -> String {
    match e {
        EvalError::Exception(x) => x.message(obj).into_iter().collect(),
        _ => String::new(),
    }
}

#[test]
fn integer_functions() {
    let obj = &mut new_object();
    assert!(is_int(run("(abs 1)", obj), obj, 1));
    assert!(is_int(run("(abs -1)", obj), obj, 1));
    assert!(is_int(run("(+ 1)", obj), obj, 1));
    assert!(is_int(run("(+ 1 2 3 -4)", obj), obj, 2));
    assert!(is_int(run("(- 1)", obj), obj, -1));
    assert!(is_int(run("(- 1 2 3 -4)", obj), obj, 0));
    run("(let fib (fun (n) (if (or (= n 0) (= n 1)) n (+ (fib (- n 2)) (fib (- n 1))))))", obj);
    assert!(is_int(run("(fib 10)", obj), obj, 55));
}

#[test]
fn large_integers_and_overflow() {
    let obj = &mut new_object();
    assert!(is_int(run("(+ 4611686018427387903 4611686018427387903)", obj), obj, 9223372036854775806));
    let e = run_err("(+ 9223372036854775807 1)", obj);
    assert!(message(&e, obj).contains("integer overflow"));
}

#[test]
fn equal_without_reals() {
    let obj = &mut new_object();
    assert_eq!(run("(= 1 1)", obj), Ref::True);
    assert_eq!(run("(= \"hoge\" \"hoge\")", obj), Ref::True);
    assert_eq!(run("(= \"hoge\" \"hogehoge\")", obj), Ref::False);
    assert_eq!(run("(= \"hoge\" \"huga\")", obj), Ref::False);
    assert_eq!(run("(= 'symbol 'symbol)", obj), Ref::True);
    assert_eq!(run("(= 'symbol 'other)", obj), Ref::False);
    assert_eq!(run("(= :keyword :keyword)", obj), Ref::True);
    assert_eq!(run("(= '(1 \"2\" :3) '(1 \"2\" :3))", obj), Ref::True);
    assert_eq!(run("(= '(1 \"2\" :3) '(1 \"2\" '3))", obj), Ref::False);
    assert_eq!(run("(= [1 \"2\" :3] [1 \"2\" :3])", obj), Ref::True);
    assert_eq!(run("(= [1 \"2\" :3] (array 1 \"2\" :3))", obj), Ref::True);
    assert_eq!(run("(= [1 \"2\" :3] [1 \"2\" '3])", obj), Ref::False);
    assert_eq!(run("(= {1 \"2\" :3} {1 \"2\" :3})", obj), Ref::True);
    assert_eq!(run("(= {1 \"2\" :3} (tuple 1 \"2\" :3))", obj), Ref::True);
    assert_eq!(run("(= 1 \"1\")", obj), Ref::False);
    assert_eq!(run("(= '(1 2 3) [1 2 3])", obj), Ref::False);
    assert_eq!(run("(= {1 \"2\" :3} {1 \"2\" '3})", obj), Ref::False);
    assert_eq!(run("(= {} [])", obj), Ref::False);
    assert_eq!(run("(= 3.14 3.14)", obj), Ref::True);
}

#[test]
fn any_is_type() {
    let obj = &mut new_object();
    let v = make_integer(obj, 10).ok().unwrap();
    let t = get_typeinfo(obj, v);
    assert!(is_type(t, TypeInfo::Fixnum));
    assert!(is_type(t, TypeInfo::Integer));
    assert!(is_type(t, TypeInfo::Real));
    assert!(is_type(t, TypeInfo::Number));
    assert!(is_type(t, TypeInfo::Any));

    let r = run("3.14", obj);
    let t = get_typeinfo(obj, r);
    assert!(!is_type(t, TypeInfo::Integer));
    assert!(is_type(t, TypeInfo::Real));
    assert!(is_type(t, TypeInfo::Number));
    assert!(is_type(t, TypeInfo::Any));

    let n = List::nil();
    let t = get_typeinfo(obj, n);
    assert!(is_type(t, TypeInfo::List));
    assert!(!is_type(t, TypeInfo::String));
    assert!(is_type(t, TypeInfo::Any));

    let item = make_integer(obj, 10).ok().unwrap();
    let l = List::cons(obj, item, n).ok().unwrap();
    let t = get_typeinfo(obj, l);
    assert!(is_type(t, TypeInfo::List));
    assert!(!is_type(t, TypeInfo::String));
    assert!(is_type(t, TypeInfo::Any));
}

#[test]
fn printed_forms() {
    let obj = &mut new_object();
    let r = run("'(1 \"two\" three :four)", obj);
    assert_eq!(text(r, obj), "(1 two three four)");
    let r = run("[1 [2 3] {}]", obj);
    assert_eq!(text(r, obj), "[1 [2 3] {}]");
    let r = run("{true false '()}", obj);
    assert_eq!(text(r, obj), "{true false ()}");
    let r = run("(- 42)", obj);
    assert_eq!(text(r, obj), "-42");
    let r = run("3.25", obj);
    assert_eq!(text(r, obj), "3.25");
    let r = run("+", obj);
    assert_eq!(text(r, obj), "+");
    let r = run("if", obj);
    assert_eq!(text(r, obj), "if");
    let r = run("(fun (x) x)", obj);
    assert_eq!(text(r, obj), "#closure");
}

#[test]
fn print_writes_the_values_and_a_line_break() {
    let obj = &mut new_object();
    let r = run("(print 1 \"a\" '(2 3))", obj);
    assert_eq!(r, Ref::Unit);
    let out: String = obj.take_output().into_iter().collect();
    assert_eq!(out, "1a(2 3)\n");
    let out = obj.take_output();
    assert!(out.is_empty());
}

#[test]
fn errors_are_reported() {
    let obj = &mut new_object();
    let e = run_err("undefined-variable", obj);
    assert!(matches!(e, EvalError::Exception(Exception::UnboundVariable(_))));
    assert_eq!(message(&e, obj), "*** Error:unbound variable:undefined-variable");

    let e = run_err("(+ 1 \"a\")", obj);
    assert!(matches!(e, EvalError::Exception(Exception::TypeMismatch(_))));
    assert_eq!(message(&e, obj), "*** Error:mismatched type.\n  expected:Number\n  found:a");

    let e = run_err("(list-ref '(1 2) 5)", obj);
    assert!(matches!(e, EvalError::Exception(Exception::OutOfBounds(_))));

    let e = run_err("(cons 1)", obj);
    assert!(matches!(e, EvalError::Exception(Exception::MalformedFormat(_))));

    let e = run_err("((fun (a b) a) 1)", obj);
    assert!(matches!(e, EvalError::Exception(Exception::MalformedFormat(_))));

    let e = run_err("(1 2)", obj);
    assert!(matches!(e, EvalError::Exception(Exception::TypeMismatch(_))));

    let e = run_err("(local (def-recv 1 1))", obj);
    assert!(matches!(e, EvalError::Exception(Exception::DisallowContext)));

    let e = run_err("(exit)", obj);
    assert!(matches!(e, EvalError::Exit));

    let e = run_err("   ", obj);
    assert!(matches!(e, EvalError::Read(navi::read::ReadException::EOF)));
}

#[test]
fn closures_capture_local_variables() {
    let obj = &mut new_object();
    run("(let make-adder (fun (n) (fun (x) (+ x n))))", obj);
    run("(let add3 (make-adder 3))", obj);
    assert!(is_int(run("(add3 4)", obj), obj, 7));
    assert!(is_int(run("(local (let a 10) (let f (fun (b) (+ a b))) (f 5))", obj), obj, 15));
    assert!(is_int(run("(apply add3 '(10))", obj), obj, 13));
}

#[test]
fn match_binds_nested_values() {
    let obj = &mut new_object();
    let r = run("(match '(1 (2 3) [4]) ((@a (@b @c) [@d]) (list d c b a)))", obj);
    assert_eq!(text(r, obj), "(4 3 2 1)");
    let r = run("(match '(1 2) ((1 @x) x) ((@y 2) 0))", obj);
    assert!(is_int(r, obj, 2));
    let r = run("(match 5 (@_ 'any))", obj);
    assert_eq!(text(r, obj), "any");
    let r = run("(match)", obj);
    assert_eq!(r, Ref::Unit);
}

#[test]
fn object_switch_is_asked_for_at_the_top() {
    let obj = &mut new_object();
    let mut peers = Vec::new();
    let r = exec("(let o (spawn))", obj, &mut peers).ok().unwrap();
    match exec("(object-switch o)", obj, &mut peers) {
        Err(EvalError::ObjectSwitch(Some(target))) => assert!(Any::eq(obj.heap(), target, obj.heap(), r)),
        _ => panic!("no switch"),
    }
    assert!(matches!(exec("(return-object-switch)", obj, &mut peers), Err(EvalError::ObjectSwitch(None))));
}

#[test]
fn garbage_collection_keeps_global_values() {
    let obj = &mut new_object();
    run("(let l (list 1 2 (list 3 4) \"text\"))", obj);
    run("(list 5 6 7)", obj);
    let before = obj.heap_used();
    obj.do_gc();
    assert!(obj.heap_used() < before);
    let r = run("l", obj);
    assert_eq!(text(r, obj), "(1 2 (3 4) text)");
}

#[test]
fn local_variables_end_with_their_block() {
    let obj = &mut new_object();
    assert!(is_int(run("(local (let x 1) x)", obj), obj, 1));
    let e = run_err("x", obj);
    assert!(matches!(e, EvalError::Exception(Exception::UnboundVariable(_))));
    assert!(is_int(run("(local (let y 2) (local (let y 3) y))", obj), obj, 3));
    assert!(is_int(run("(local (let y 2) (local (let y 3) y) y)", obj), obj, 2));
}

#[test]
fn builtins_refuse_what_they_cannot_answer() {
    let obj = &mut new_object();
    run("(let smallest (- (- 0 9223372036854775807) 1))", obj);
    assert_eq!(text(run("smallest", obj), obj), "-9223372036854775808");
    let e = run_err("(abs smallest)", obj);
    assert!(message(&e, obj).contains("integer overflow"));
    let e = run_err("(- smallest 1)", obj);
    assert!(message(&e, obj).contains("integer overflow"));
    let e = run_err("(- smallest)", obj);
    assert!(message(&e, obj).contains("integer overflow"));
    let e = run_err("(array-ref [1 2] 2)", obj);
    assert!(matches!(e, EvalError::Exception(Exception::OutOfBounds(_))));
    let e = run_err("(tuple-ref {1} -1)", obj);
    assert!(matches!(e, EvalError::Exception(Exception::OutOfBounds(_))));
    assert!(is_int(run("(array-ref [1 2] 1)", obj), obj, 2));
    assert!(is_int(run("(list-len (append '(1) '(2 3)))", obj), obj, 3));
}

#[test]
fn syntax_is_checked_when_compiled() {
    let obj = &mut new_object();
    let e = run_err("(if 1)", obj);
    assert!(matches!(e, EvalError::Exception(Exception::MalformedFormat(_))));
    let e = run_err("(quote)", obj);
    assert!(matches!(e, EvalError::Exception(Exception::MalformedFormat(_))));
    let e = run_err("(fun 1 1)", obj);
    assert!(matches!(e, EvalError::Exception(Exception::TypeMismatch(_))));
    let e = run_err("(fun (1) 1)", obj);
    assert!(matches!(e, EvalError::Exception(Exception::TypeMismatch(_))));
    let e = run_err("(let 1 2)", obj);
    assert!(matches!(e, EvalError::Exception(Exception::TypeMismatch(_))));
    let e = run_err("(let a)", obj);
    assert!(matches!(e, EvalError::Exception(Exception::MalformedFormat(_))));
    let e = run_err("(cond 1)", obj);
    assert!(matches!(e, EvalError::Exception(Exception::TypeMismatch(_))));
    assert_eq!(run("(and)", obj), Ref::True);
    assert_eq!(run("(or)", obj), Ref::False);
    assert_eq!(run("(cond)", obj), Ref::False);
    assert_eq!(run("(if false 1)", obj), Ref::False);
}

#[test]
fn constants_and_variables_evaluate_directly() {
    let obj = &mut new_object();
    assert_eq!(text(run("\"text\"", obj), obj), "text");
    assert_eq!(text(run(":key", obj), obj), "key");
    assert!(is_int(run("42", obj), obj, 42));
    run("(let v 7)", obj);
    assert!(is_int(run("v", obj), obj, 7));
}

#[test]
fn switching_to_an_object_and_back() {
    let obj = &mut new_object();
    let mut peers: Vec<Object> = Vec::new();
    let r = exec("(let o (spawn))", obj, &mut peers).ok().unwrap();
    exec("(let here 1)", obj, &mut peers).ok().unwrap();
    assert_eq!(obj.id(), 0);
    assert!(navi::object::object_switch(obj, &mut peers, r).is_ok());
    assert_eq!(obj.id(), 1);
    assert_eq!(peers.len(), 1);
    assert_eq!(peers[0].id(), 0);
    assert!(matches!(exec("here", obj, &mut peers), Err(EvalError::Exception(Exception::UnboundVariable(_)))));
    assert!(navi::object::return_object_switch(obj, &mut peers));
    assert_eq!(obj.id(), 0);
    assert!(is_int(run("here", obj), obj, 1));
    assert!(!navi::object::return_object_switch(obj, &mut peers));
    assert!(matches!(navi::object::object_switch(obj, &mut peers, Ref::Nil), Err(Exception::TypeMismatch(_))));
}

#[test]
fn spawned_objects_are_numbered_after_the_largest() {
    let obj = &mut new_object();
    let mut peers: Vec<Object> = Vec::new();
    exec("(spawn)", obj, &mut peers).ok().unwrap();
    exec("(spawn)", obj, &mut peers).ok().unwrap();
    assert_eq!(peers.len(), 2);
    assert_eq!(peers[0].id(), 1);
    assert_eq!(peers[1].id(), 2);
    let e = exec("(send 1 2)", obj, &mut peers);
    assert!(matches!(e, Err(EvalError::Exception(Exception::TypeMismatch(_)))));
}
