use ksplang_opt::ranges::{
    abs_range, add_range, empty_range, eval_combi_u64, full_range, intersect_range, mul_range, range_2_i64,
    range_is_signless, range_sign, range_size, sort_tuple, sub_range, u64neg, union_range,
};

#[test]
fn named_ranges() {
    assert_eq!(full_range(), i64::MIN..=i64::MAX);
    assert_eq!(empty_range(), 1..=0);
}

#[test]
fn range_size_counts() {
    assert_eq!(range_size(&(1..=0)), 0);
    assert_eq!(range_size(&(-2..=2)), 5);
    assert_eq!(range_size(&(7..=7)), 1);
    assert_eq!(range_size(&(i64::MIN..=i64::MAX)), 1u128 << 64);
}

#[test]
fn u64neg_wraps() {
    assert_eq!(u64neg(5), -5);
    assert_eq!(u64neg(0), 0);
    assert_eq!(u64neg(u64::MAX), 1);
    assert_eq!(u64neg(1u64 << 63), i64::MIN);
}

#[test]
fn abs_range_cases() {
    assert_eq!(abs_range(&(-5..=-2)), 2..=5);
    assert_eq!(abs_range(&(2..=5)), 2..=5);
    assert_eq!(abs_range(&(-3..=7)), 0..=7);
    assert_eq!(abs_range(&(-9..=7)), 0..=9);
    assert_eq!(abs_range(&(i64::MIN..=0)), 0..=(1u64 << 63));
    assert_eq!(abs_range(&(i64::MIN..=-1)), 1..=(1u64 << 63));
}

#[test]
fn add_and_sub_saturate() {
    assert_eq!(add_range(&(1..=2), &(3..=4)), 4..=6);
    assert_eq!(add_range(&(i64::MAX - 1..=i64::MAX), &(5..=5)), i64::MAX..=i64::MAX);
    assert_eq!(add_range(&(i64::MIN..=0), &(-1..=1)), i64::MIN..=1);
    assert_eq!(sub_range(&(1..=2), &(3..=4)), -3..=-1);
    assert_eq!(sub_range(&(i64::MIN..=0), &(1..=1)), i64::MIN..=-1);
    assert_eq!(sub_range(&(0..=i64::MAX), &(-1..=0)), 0..=i64::MAX);
}

#[test]
fn signs() {
    assert!(!range_is_signless(&(-1..=1)));
    assert!(range_is_signless(&(0..=5)));
    assert!(range_is_signless(&(-5..=0)));
    assert_eq!(range_sign(&(0..=5)), 1);
    assert_eq!(range_sign(&(0..=0)), 1);
    assert_eq!(range_sign(&(-5..=0)), -1);
    assert_eq!(range_sign(&(-1..=1)), 0);
}

#[test]
fn mul_range_corners() {
    assert_eq!(mul_range(&(-2..=3), &(4..=5)), (-10..=15, false));
    assert_eq!(mul_range(&(-2..=-1), &(-3..=-2)), (2..=6, false));
    assert_eq!(mul_range(&(i64::MAX..=i64::MAX), &(2..=2)), (i64::MAX..=i64::MAX, true));
    assert_eq!(mul_range(&(i64::MIN..=0), &(-1..=1)), (i64::MIN..=i64::MAX, true));
}

#[test]
fn union_and_intersection() {
    assert_eq!(union_range(&(1..=2), &(5..=9)), 1..=9);
    assert_eq!(union_range(&(-4..=20), &(5..=9)), -4..=20);
    assert_eq!(intersect_range(&(1..=5), &(3..=9)), 3..=5);
    assert_eq!(intersect_range(&(1..=2), &(3..=9)), 1..=0);
    assert_eq!(intersect_range(&(i64::MIN..=i64::MAX), &(-1..=1)), -1..=1);
}

#[test]
fn unsigned_to_signed() {
    assert_eq!(range_2_i64(0..=5), 0..=5);
    assert_eq!(range_2_i64(5..=u64::MAX), 5..=i64::MAX);
    assert_eq!(range_2_i64(u64::MAX..=u64::MAX), 1..=0);
    assert_eq!(range_2_i64(i64::MAX as u64..=i64::MAX as u64), i64::MAX..=i64::MAX);
}

#[test]
fn sort_tuple_orders() {
    assert_eq!(sort_tuple(3, 1), (1, 3));
    assert_eq!(sort_tuple(1, 3), (1, 3));
    assert_eq!(sort_tuple(2, 2), (2, 2));
}

#[test]
fn eval_combi_products() {
    assert_eq!(eval_combi_u64(0..=3, 0..=3, 100, |x, y| Some(x * y)), Some(0..=9));
    assert_eq!(eval_combi_u64(2..=3, 5..=7, 6, |x, y| Some(x + y)), Some(7..=10));
    assert_eq!(eval_combi_u64(0..=3, 0..=3, 15, |x, y| Some(x * y)), None);
    assert_eq!(eval_combi_u64(0..=3, 0..=3, 100, |_, _| None), Some(1..=0));
    assert_eq!(eval_combi_u64(3..=0, 0..=3, 0, |x, y| Some(x * y)), Some(1..=0));
    assert_eq!(eval_combi_u64(0..=3, 1..=2, 100, |x, y| x.checked_sub(y)), Some(0..=2));
    assert_eq!(eval_combi_u64(0..=u64::MAX, 0..=u64::MAX, u64::MAX - 1, |x, y| Some(x | y)), None);
}

#[test]
fn add_range_contains_sums() {
    let a = -3..=4;
    let b = 10..=12;
    let r = add_range(&a, &b);
    for x in a.clone() {
        for y in b.clone() {
            assert!(r.contains(&(x + y)));
        }
    }
    let r = sub_range(&a, &b);
    for x in a.clone() {
        for y in b.clone() {
            assert!(r.contains(&(x - y)));
        }
    }
    let (r, _) = mul_range(&a, &b);
    for x in a.clone() {
        for y in b.clone() {
            assert!(r.contains(&(x * y)));
        }
    }
}
