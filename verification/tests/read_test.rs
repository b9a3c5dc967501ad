use navi::object::Object;
use navi::read::{read, ReadException, Reader};
use navi::value::Ref;
use navi::value::any::Any;
use navi::value::keyword::Keyword;
use navi::value::number::make_integer;
use navi::value::string::NString;
use navi::value::symbol::Symbol;

fn chars(s: &str) -> Vec<char> {
    s.chars().collect()
}

fn read_one(reader: &mut Reader, obj: &mut Object) -> Ref {
    match read(reader, obj) {
        Ok(r) => r,
        Err(_) => panic!("read failed"),
    }
}

fn same(result: Ref, obj: &Object, ans: Ref, ans_obj: &Object) -> bool {
    Any::eq(obj.heap(), result, ans_obj.heap(), ans)
}

fn symbol(name: &str, obj: &mut Object) -> Ref {
    match Symbol::allocate(obj, &chars(name)) {
        Ok(r) => r,
        Err(_) => panic!("out of memory"),
    }
}

#[test]
fn read_read_empty() {
    let obj = &mut Object::new(0);
    let program = "
                
        ";
    let mut reader = Reader::from_str(program);
    let result = read(&mut reader, obj);
    assert!(result.is_err());
    assert!(matches!(result, Err(ReadException::EOF)));
}

#[test]
fn read_read_string() {
    let obj = &mut Object::new(0);
    let ans_obj = &mut Object::new(1);

    let mut reader = Reader::from_str(
        "
            \"aiueo\"
            ",
    );
    let result = read_one(&mut reader, obj);
    let ans = NString::allocate(ans_obj, &chars("aiueo")).ok().unwrap();
    assert!(same(result, obj, ans, ans_obj));

    let mut reader = Reader::from_str(
        "
            \"1 + (1 - 3) = -1\"
            \"3 * (4 / 2) - 12 = -6   \"
            ",
    );
    let result = read_one(&mut reader, obj);
    let ans = NString::allocate(ans_obj, &chars("1 + (1 - 3) = -1")).ok().unwrap();
    assert!(same(result, obj, ans, ans_obj));

    let result = read_one(&mut reader, obj);
    let ans = NString::allocate(ans_obj, &chars("3 * (4 / 2) - 12 = -6   ")).ok().unwrap();
    assert!(same(result, obj, ans, ans_obj));
}

#[test]
fn read_read_int() {
    let obj = &mut Object::new(0);
    let ans_obj = &mut Object::new(1);

    let result = read_one(&mut Reader::from_str("1"), obj);
    let ans = make_integer(ans_obj, 1).ok().unwrap();
    assert!(same(result, obj, ans, ans_obj));

    let result = read_one(&mut Reader::from_str("-1"), obj);
    let ans = make_integer(ans_obj, -1).ok().unwrap();
    assert!(same(result, obj, ans, ans_obj));

    let result = read_one(&mut Reader::from_str("+1"), obj);
    let ans = make_integer(ans_obj, 1).ok().unwrap();
    assert!(same(result, obj, ans, ans_obj));
}

#[test]
fn read_read_symbol() {
    let obj = &mut Object::new(0);
    let ans_obj = &mut Object::new(1);

    let result = read_one(&mut Reader::from_str("symbol"), obj);
    let ans = symbol("symbol", ans_obj);
    assert!(same(result, obj, ans, ans_obj));

    let mut reader = Reader::from_str("s1 s2   s3");
    for name in ["s1", "s2", "s3"] {
        let result = read_one(&mut reader, obj);
        let ans = symbol(name, ans_obj);
        assert!(same(result, obj, ans, ans_obj));
    }

    let mut reader = Reader::from_str("+ - +1-2 -2*3/4");
    for name in ["+", "-", "+1-2", "-2*3/4"] {
        let result = read_one(&mut reader, obj);
        let ans = symbol(name, ans_obj);
        assert!(same(result, obj, ans, ans_obj));
    }

    let mut reader = Reader::from_str("true false");
    assert_eq!(read_one(&mut reader, obj), Ref::True);
    assert_eq!(read_one(&mut reader, obj), Ref::False);
}

#[test]
fn read_keyword() {
    let obj = &mut Object::new(0);
    let ans_obj = &mut Object::new(1);

    let result = read_one(&mut Reader::from_str(":symbol"), obj);
    let ans = Keyword::allocate(ans_obj, &chars("symbol")).ok().unwrap();
    assert!(same(result, obj, ans, ans_obj));
}

#[test]
fn read_closing_bracket_refused() {
    let obj = &mut Object::new(0);
    let mut reader = Reader::from_str("  ) 1");
    match read(&mut reader, obj) {
        Err(ReadException::MalformedFormat(m)) => assert!(m.related_exp.is_none()),
        _ => panic!("a closing bracket was accepted"),
    }
    assert_eq!(reader.pos(), 2);
}

#[test]
fn read_immediate_values_in_a_full_heap() {
    let obj = &mut Object::new(0);
    let mut filler = 0;
    while make_integer(obj, 4611686018427387904 + filler).is_ok() {
        filler += 1;
    }
    let mut reader = Reader::from_str("1 true false () {}");
    for _ in 0..5 {
        assert!(read(&mut reader, obj).is_ok());
    }
    let mut reader = Reader::from_str("(1)");
    assert!(matches!(read(&mut reader, obj), Err(ReadException::OutOfMemory)));
}
