use cev::compress::Compress;
use cev::container::Compressed;
use cev::example::Test;

#[test]
fn mixed_width_pushes_then_widening_update() {
    let mut c = Compressed::<Test<i32>>::new();
    c.push(Test::Int8(8));
    c.push(Test::Int8(9));
    c.push(Test::Int16(16));
    c.push(Test::Int16(17));
    c.push(Test::Int16(18));
    c.push(Test::Int16(19));
    c.push(Test::Int16(20));
    c.push(Test::Unit);
    c.push(Test::Int32(32));
    c.push(Test::Int16(257));

    assert_eq!(c.get(7), Some(Test::Unit));
    assert_eq!(c.get(8), Some(Test::Int32(32)));
    assert_eq!(c.get(9), Some(Test::Int16(257)));

    let before = c.occupied();
    let unit_size = Test::<i32>::Unit.size();
    let wide_size = Test::<i32>::Int64(64).size();

    c.update(7, |_old: &Test<i32>| Test::Int64(64));

    assert_eq!(c.get(7), Some(Test::Int64(64)));
    assert_eq!(c.get(8), Some(Test::Int32(32)));
    assert_eq!(c.get(9), Some(Test::Int16(257)));
    assert_eq!(c.occupied(), before + (wide_size - unit_size));
    assert!(c.occupied() <= c.capacity());
}
