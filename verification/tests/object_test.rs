use navi::object::Object;
use navi::value::object_ref::ObjectRef;

#[test]
fn hgoe() {
    let obj = &mut Object::new(0);
    obj.register_core_global();

    let other = Object::new(1);
    let r = ObjectRef::allocate(obj, other.id());
    assert!(r.is_ok());
}

