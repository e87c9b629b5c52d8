use mouse_testing::ring::Ring;

#[test]
fn capacity_rounds_up_to_a_power_of_two() {
    let r: Ring<u64> = Ring::new(1000);
    assert_eq!(r.capacity(), 1024);
}

#[test]
fn only_one_consumer_can_exist() {
    let mut r: Ring<u64> = Ring::new(8);
    assert!(r.take_consumer().is_some());
    assert!(r.take_consumer().is_none());
}

#[test]
fn overflow_is_counted_not_silently_lost() {
    let mut r: Ring<u64> = Ring::new(8);
    let mut c = r.take_consumer().unwrap();
    for i in 0..20u64 {
        r.push(i);
    }
    let mut out = Vec::new();
    let dropped = r.drain(&mut c, &mut out);
    assert_eq!(out.len(), 8, "ring should hold exactly its capacity");
    assert_eq!(dropped, 12, "every rejected sample must be counted");
    assert_eq!(out.len() as u64 + dropped, 20);
}

#[test]
fn small_capacities_round_up_to_two() {
    assert_eq!(Ring::<u8>::new(0).capacity(), 2);
    assert_eq!(Ring::<u8>::new(1).capacity(), 2);
    assert_eq!(Ring::<u8>::new(2).capacity(), 2);
    assert_eq!(Ring::<u8>::new(3).capacity(), 4);
    assert_eq!(Ring::<u8>::new(1024).capacity(), 1024);
}

#[test]
fn samples_come_out_in_order_across_the_wrap_point() {
    let mut r: Ring<u32> = Ring::new(4);
    let mut c = r.take_consumer().unwrap();
    let mut out = Vec::new();
    for i in 0..3 {
        r.push(i);
    }
    assert_eq!(r.drain(&mut c, &mut out), 0);
    assert!(r.is_empty());
    for i in 3..7 {
        r.push(i);
    }
    assert_eq!(r.len(), 4);
    r.push(99);
    assert_eq!(r.drain(&mut c, &mut out), 1);
    assert_eq!(out, vec![0, 1, 2, 3, 4, 5, 6]);
    // The count is reported once, then starts again.
    assert_eq!(r.drain(&mut c, &mut out), 0);
}
