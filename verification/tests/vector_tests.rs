use pathfinder::vector::{integer_sqrt, Vector};

#[test]
fn integer_sqrt_rounds_down() {
    assert_eq!(integer_sqrt(0), 0);
    assert_eq!(integer_sqrt(1), 1);
    assert_eq!(integer_sqrt(2), 1);
    assert_eq!(integer_sqrt(3), 1);
    assert_eq!(integer_sqrt(4), 2);
    assert_eq!(integer_sqrt(24), 4);
    assert_eq!(integer_sqrt(25), 5);
    assert_eq!(integer_sqrt(200), 14);
    assert_eq!(integer_sqrt(u128::MAX), u64::MAX);
}

#[test]
fn integer_sqrt_brackets_its_argument() {
    let mut n: u128 = 1;
    while n < u128::MAX / 7 {
        let r = integer_sqrt(n) as u128;
        assert!(r * r <= n);
        assert!((r + 1) * (r + 1) > n);
        n = n * 7 + 3;
    }
}

#[test]
fn integer_sqrt_agrees_with_the_floating_point_root() {
    for n in 0u32..2000 {
        assert_eq!(integer_sqrt(n as u128), (n as f64).sqrt().floor() as u64);
    }
}

#[test]
fn distance_of_a_three_four_five_triangle() {
    let a = Vector::new(0, 0);
    let b = Vector::new(3, 4);
    assert_eq!(a.distance(b), 5);
    assert_eq!(b.distance(a), 5);
    assert_eq!(a.distance(a), 0);
}

#[test]
fn distance_is_rounded_down() {
    assert_eq!(Vector::new(0, 0).distance(Vector::new(10, 10)), 14);
    assert_eq!(Vector::new(-5, 2).distance(Vector::new(-4, 3)), 1);
}

#[test]
fn distance_is_rounded_up_on_request() {
    assert_eq!(Vector::new(0, 0).distance_up(Vector::new(10, 10)), 15);
    assert_eq!(Vector::new(0, 0).distance_up(Vector::new(3, 4)), 5);
    assert_eq!(Vector::new(-5, 2).distance_up(Vector::new(-4, 3)), 2);
    assert_eq!(Vector::new(9, 9).distance_up(Vector::new(9, 9)), 0);
    let a = Vector::new(i32::MIN, i32::MIN);
    let b = Vector::new(i32::MAX, i32::MAX);
    assert_eq!(a.distance_up(b), 6074000999);
    assert_eq!(b.distance_up(a), 6074000999);
}

#[test]
fn rounded_distances_bracket_the_floating_point_distance() {
    for x in -6i32..7 {
        for y in -6i32..7 {
            let v = Vector::new(x * 37, y * 91);
            let exact = ((v.x as f64).powi(2) + (v.y as f64).powi(2)).sqrt();
            assert_eq!(Vector::zero().distance(v), exact.floor() as u64);
            assert_eq!(Vector::zero().distance_up(v), exact.ceil() as u64);
        }
    }
}

#[test]
fn the_way_over_a_third_point_is_not_shorter() {
    let points = [
        Vector::new(0, 0),
        Vector::new(1, 1),
        Vector::new(2, 2),
        Vector::new(3, 3),
        Vector::new(-7, 12),
        Vector::new(1000, -1),
    ];
    for a in points {
        for b in points {
            for c in points {
                assert!(a.distance(c) <= a.distance_up(b) + b.distance(c));
            }
        }
    }
}

#[test]
fn distance_across_the_whole_grid() {
    let a = Vector::new(i32::MIN, i32::MIN);
    let b = Vector::new(i32::MAX, i32::MAX);
    assert_eq!(a.distance(b), 6074000998);
    assert_eq!(Vector::new(i32::MIN, 0).distance(Vector::new(i32::MAX, 0)), 4294967295);
}

#[test]
fn length_and_squared_length() {
    let v = Vector::new(-3, 4);
    assert_eq!(v.sqr_length(), 25);
    assert_eq!(v.length(), 5);
    assert_eq!(Vector::new(1, 1).length(), 1);
    assert_eq!(Vector::zero().length(), 0);
    let corner = Vector::new(i32::MIN, i32::MIN);
    assert_eq!(corner.sqr_length(), 1u64 << 63);
    assert_eq!(corner.length(), 3037000499);
}

#[test]
fn named_vectors() {
    assert_eq!(Vector::new(2, -7), Vector { x: 2, y: -7 });
    assert_eq!(Vector::zero(), Vector { x: 0, y: 0 });
    assert_eq!(Vector::right(), Vector { x: 1, y: 0 });
    assert_eq!(Vector::up(), Vector { x: 0, y: 1 });
    assert_eq!(Vector::default(), Vector::zero());
}

#[test]
fn dot_product() {
    assert_eq!(Vector::new(1, 2).dot(Vector::new(3, 4)), 11);
    assert_eq!(Vector::new(1, 0).dot(Vector::new(0, 1)), 0);
    assert_eq!(Vector::new(-2, 5).dot(Vector::new(4, -1)), -13);
    let corner = Vector::new(i32::MIN, i32::MIN);
    assert_eq!(corner.dot(corner), 1i128 << 63);
}

#[test]
fn quarter_turns() {
    let v = Vector::new(3, 4);
    assert_eq!(v.clockwise_90deg(), Vector::new(4, -3));
    assert_eq!(v.anticlockwise_90deg(), Vector::new(-4, 3));
    assert_eq!(v.clockwise_90deg().anticlockwise_90deg(), v);
    assert_eq!(v.dot(v.clockwise_90deg()), 0);
    assert_eq!(Vector::up().clockwise_90deg(), Vector::right());
}

#[test]
fn coordinatewise_min_and_max() {
    let a = Vector::new(1, 8);
    let b = Vector::new(5, -2);
    assert_eq!(a.min(b), Vector::new(1, -2));
    assert_eq!(a.max(b), Vector::new(5, 8));
    assert_eq!(a.min(a), a);
    assert_eq!(a.max(a), a);
}

#[test]
fn arithmetic_operators() {
    let a = Vector::new(1, 8);
    let b = Vector::new(5, -2);
    assert_eq!(a + b, Vector::new(6, 6));
    assert_eq!(a - b, Vector::new(-4, 10));
    assert_eq!(a * 3, Vector::new(3, 24));
    assert_eq!(b / 2, Vector::new(2, -1));
    assert_eq!(Vector::new(-7, 7) / 2, Vector::new(-3, 3));
    assert_eq!(Vector::new(-7, 7) / -2, Vector::new(3, -3));
    assert_eq!(-a, Vector::new(-1, -8));
}

#[test]
fn assigning_operators() {
    let mut v = Vector::new(1, 8);
    v += Vector::new(5, -2);
    assert_eq!(v, Vector::new(6, 6));
    v -= Vector::new(1, 2);
    assert_eq!(v, Vector::new(5, 4));
    v *= -3;
    assert_eq!(v, Vector::new(-15, -12));
    v /= 4;
    assert_eq!(v, Vector::new(-3, -3));
}

#[test]
fn conversion_to_and_from_a_pair() {
    let pair: [i32; 2] = Vector::new(3, -9).into();
    assert_eq!(pair, [3, -9]);
    assert_eq!(Vector::from([3, -9]), Vector::new(3, -9));
}
