use simengine::kernel::{add_vectors, rat_add, rat_div, rat_mul, rat_sub, Rat};

#[test]
fn test_vector_addition() {
    let a = vec![Rat::whole(1), Rat::whole(2), Rat::whole(3)];
    let b = vec![Rat::whole(4), Rat::whole(5), Rat::whole(6)];
    let result = add_vectors(&a, &b).unwrap();
    let expected = vec![Rat::whole(5), Rat::whole(7), Rat::whole(9)];
    assert_eq!(result.len(), expected.len());
    for i in 0..result.len() {
        assert!(result[i].eq(expected[i]));
    }
}

#[test]
fn test_vector_addition_mismatched_lengths() {
    let a = vec![Rat::whole(1), Rat::whole(2)];
    let b = vec![Rat::whole(4), Rat::whole(5), Rat::whole(6)];
    let result = add_vectors(&a, &b);
    assert!(result.is_none());
}

#[test]
fn exact_fraction_arithmetic() {
    let half = Rat { num: 1, den: 2 };
    let third = Rat { num: 1, den: 3 };
    let sum = rat_add(half, third).unwrap();
    assert!(sum.eq(Rat { num: 5, den: 6 }));
    let diff = rat_sub(half, third).unwrap();
    assert!(diff.eq(Rat { num: 1, den: 6 }));
    let prod = rat_mul(half, third).unwrap();
    assert!(prod.eq(Rat { num: 1, den: 6 }));
    let quot = rat_div(half, third).unwrap();
    assert!(quot.eq(Rat { num: 3, den: 2 }));
}

#[test]
fn addition_out_of_range_is_refused() {
    let big = Rat { num: i64::MAX, den: 1 };
    assert!(rat_add(big, Rat::whole(1)).is_none());
    assert!(rat_add(big, Rat::whole(-1)).is_some());
}

#[test]
fn division_by_zero_is_refused() {
    assert!(rat_div(Rat::whole(3), Rat::zero()).is_none());
}
