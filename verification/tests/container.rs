use cev::compress::Compress;
use cev::container::{Compressed, START_CAP};
use cev::example::{EmptyStruct, Test};

#[test]
fn new_container_is_empty() {
    let c = Compressed::<u32>::new();
    assert_eq!(c.len(), 0);
    assert_eq!(c.occupied(), 0);
    assert_eq!(c.capacity(), START_CAP);
    assert_eq!(c.get(0), None);
}

#[test]
fn push_then_get_returns_each_value() {
    let mut c = Compressed::<Test<i32>>::new();
    let values = vec![
        Test::Int8(1),
        Test::Unit,
        Test::Int16(300),
        Test::Int64(1 << 40),
        Test::T2(-5),
        Test::T3(7, 8),
        Test::T4 { a: -9, b: 10 },
    ];
    for v in &values {
        c.push(v.clone());
    }
    for (i, v) in values.iter().enumerate() {
        assert_eq!(c.get(i), Some(v.clone()));
    }
    assert_eq!(c.get(values.len()), None);
    assert_eq!(c.get(usize::MAX), None);
}

#[test]
fn length_counts_the_pushes() {
    let mut c = Compressed::<u16>::new();
    for i in 0..100u16 {
        assert_eq!(c.len(), i as usize);
        c.push(i * 3);
    }
    assert_eq!(c.len(), 100);
}

#[test]
fn growth_keeps_contents() {
    let mut c = Compressed::<u64>::with_capacity(1);
    for i in 0..50u64 {
        c.push(i * i);
        assert!(c.occupied() <= c.capacity());
    }
    for i in 0..50u64 {
        assert_eq!(c.get(i as usize), Some(i * i));
    }
    assert!(c.capacity() >= 50 * 8);
}

#[test]
fn capacity_never_shrinks() {
    let mut c = Compressed::<u32>::with_capacity(4);
    let mut last = c.capacity();
    for i in 0..40u32 {
        c.push(i);
        assert!(c.capacity() >= last);
        last = c.capacity();
    }
}

#[test]
fn update_with_identity_changes_nothing() {
    let mut c = Compressed::<Test<i32>>::new();
    let values = vec![Test::Int8(1), Test::Int16(2), Test::Int32(3), Test::Unit];
    for v in &values {
        c.push(v.clone());
    }
    let before_occupied = c.occupied();
    for i in 0..values.len() {
        c.update(i, |old: &Test<i32>| old.clone());
    }
    for (i, v) in values.iter().enumerate() {
        assert_eq!(c.get(i), Some(v.clone()));
    }
    assert_eq!(c.occupied(), before_occupied);
}

#[test]
fn update_out_of_range_is_a_no_op() {
    let mut c = Compressed::<u8>::new();
    c.push(11);
    c.update(1, |_old: &u8| 99);
    c.update(usize::MAX, |_old: &u8| 99);
    assert_eq!(c.len(), 1);
    assert_eq!(c.get(0), Some(11));
}

#[test]
fn update_equal_size_replaces_in_place() {
    let mut c = Compressed::<Test<i32>>::new();
    c.push(Test::Int16(100));
    c.push(Test::Int16(200));
    c.push(Test::Int16(300));
    let before = c.occupied();
    c.update(1, |_old: &Test<i32>| Test::Int16(999));
    assert_eq!(c.get(0), Some(Test::Int16(100)));
    assert_eq!(c.get(1), Some(Test::Int16(999)));
    assert_eq!(c.get(2), Some(Test::Int16(300)));
    assert_eq!(c.occupied(), before);
}

#[test]
fn update_growing_shifts_the_tail() {
    let mut c = Compressed::<Test<i32>>::new();
    c.push(Test::Int8(1));
    c.push(Test::Int8(2));
    c.push(Test::Int16(3));
    let before = c.occupied();
    c.update(1, |old: &Test<i32>| match old {
        Test::Int8(x) => Test::Int64(*x as u64 + 1000),
        other => other.clone(),
    });
    assert_eq!(c.get(0), Some(Test::Int8(1)));
    assert_eq!(c.get(1), Some(Test::Int64(1002)));
    assert_eq!(c.get(2), Some(Test::Int16(3)));
    // an Int64 encoding is seven bytes wider than an Int8 encoding
    assert_eq!(c.occupied(), before + 7);
    assert!(c.occupied() <= c.capacity());
}

#[test]
fn update_shrinking_shifts_the_tail_back() {
    let mut c = Compressed::<Test<i32>>::new();
    c.push(Test::Int64(11));
    c.push(Test::Int64(22));
    c.push(Test::Int32(33));
    let before = c.occupied();
    c.update(0, |_old: &Test<i32>| Test::Unit);
    assert_eq!(c.get(0), Some(Test::Unit));
    assert_eq!(c.get(1), Some(Test::Int64(22)));
    assert_eq!(c.get(2), Some(Test::Int32(33)));
    // a unit encoding is eight bytes narrower than an Int64 encoding
    assert_eq!(c.occupied(), before - 8);
}

#[test]
fn update_the_last_element() {
    let mut c = Compressed::<Test<i32>>::new();
    c.push(Test::Int8(1));
    c.push(Test::Unit);
    c.update(1, |_old: &Test<i32>| Test::Int32(7));
    assert_eq!(c.get(0), Some(Test::Int8(1)));
    assert_eq!(c.get(1), Some(Test::Int32(7)));
    c.update(1, |_old: &Test<i32>| Test::Int8(9));
    assert_eq!(c.get(0), Some(Test::Int8(1)));
    assert_eq!(c.get(1), Some(Test::Int8(9)));
    assert_eq!(c.len(), 2);
}

#[test]
fn update_growing_forces_growth() {
    let mut c = Compressed::<Test<i32>>::with_capacity(4);
    c.push(Test::Int8(5));
    let before_cap = c.capacity();
    c.update(0, |_old: &Test<i32>| Test::Int64(5));
    assert_eq!(c.get(0), Some(Test::Int64(5)));
    assert!(c.capacity() >= before_cap);
    assert!(c.occupied() <= c.capacity());
}

#[test]
fn zero_width_elements_are_stored() {
    let mut c = Compressed::<EmptyStruct>::new();
    for _ in 0..5 {
        c.push(EmptyStruct);
    }
    assert_eq!(c.len(), 5);
    assert_eq!(c.occupied(), 0);
    assert_eq!(c.get(4), Some(EmptyStruct));
    assert_eq!(c.get(5), None);
}

#[test]
fn cursor_stays_within_capacity_over_mixed_operations() {
    let mut c = Compressed::<Test<i32>>::with_capacity(2);
    for i in 0..30u32 {
        match i % 4 {
            0 => c.push(Test::Int8(i as u8)),
            1 => c.push(Test::Int64(i as u64)),
            2 => c.push(Test::Unit),
            _ => c.push(Test::Int16(i as u16)),
        }
        assert!(c.occupied() <= c.capacity());
        let target = (i / 2) as usize;
        c.update(target, |old: &Test<i32>| match old {
            Test::Int8(x) => Test::Int64(*x as u64),
            Test::Int64(x) => Test::Int8(*x as u8),
            other => other.clone(),
        });
        assert!(c.occupied() <= c.capacity());
    }
    assert_eq!(c.len(), 30);
}

#[test]
fn sizes_add_up_to_occupied_bytes() {
    let mut c = Compressed::<Test<i32>>::new();
    let values = vec![Test::Int8(1), Test::Int16(2), Test::Unit, Test::T2(3)];
    let mut total = 0usize;
    for v in &values {
        total += v.size();
        c.push(v.clone());
        assert_eq!(c.occupied(), total);
    }
}
