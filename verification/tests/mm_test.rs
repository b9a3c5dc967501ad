use navi::object::Object;
use navi::object::mm::{Cell, GC_HEADER_SIZE, INTEGER_SIZE};

#[test]
fn mm_gc_test() {
    let obj = &mut Object::new(0);

    let one = obj.allocate(Cell::Integer(1)).ok().unwrap();
    let slot1 = obj.capture(one);
    {
        let two = obj.allocate(Cell::Integer(2)).ok().unwrap();
        let slot2 = obj.capture(two);
        let three = obj.allocate(Cell::Integer(3)).ok().unwrap();
        let slot3 = obj.capture(three);

        obj.do_gc();
        assert_eq!(obj.heap_used(), (GC_HEADER_SIZE + INTEGER_SIZE) * 3);

        obj.release(slot3);
        obj.release(slot2);
    }

    obj.do_gc();
    assert_eq!(obj.heap_used(), (GC_HEADER_SIZE + INTEGER_SIZE) * 1);

    obj.release(slot1);
    obj.do_gc();
    assert_eq!(obj.heap_used(), 0);
}
