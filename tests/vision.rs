use rand::rngs::StdRng;
use rand::Rng;
use rand::SeedableRng;
use torchbearer::fov::VisionMap;
use torchbearer::vision::{FovMap, SampleMap};

const WIDTH: i32 = 45;
const HEIGHT: i32 = 45;
const POSITION_X: i32 = 22;
const POSITION_Y: i32 = 22;
const RADIUS: i32 = 24;

#[test]
fn size() {
    let fov = FovMap::new(20, 40);

    assert_eq!((20, 40), fov.size());
}

#[test]
fn new_fov_map_all_is_transparent() {
    let fov = FovMap::new(10, 20);
    for x in 0..10 {
        for y in 0..20 {
            assert!(fov.is_transparent(x, y));
        }
    }
}

#[test]
fn set_tranparent() {
    let mut fov = FovMap::new(10, 20);
    fov.set_transparent(5, 5, false);

    assert!(!fov.is_transparent(5, 5));
}

#[test]
fn fov() {
    let mut fov = FovMap::new(10, 10);
    for x in 1..10 {
        fov.set_transparent(x, 3, false);
    }
    for y in 0..10 {
        fov.set_transparent(9, y, false);
    }
    fov.calculate_fov(3, 2, 10);

    println!("{:?}", fov);
}

#[test]
fn lib_fov_with_sample_map() {
    let mut fov = SampleMap::new(10, 10);
    for x in 1..10 {
        fov.set_transparent(x, 3, false);
    }
    for y in 0..10 {
        fov.set_transparent(9, y, false);
    }
    fov.calculate_fov(3, 2, 10);

    println!("{:?}", fov);
}

#[test]
fn lib_fov_to_vector() {
    let mut fov = SampleMap::new(WIDTH, HEIGHT);

    fov.calculate_fov(POSITION_X, POSITION_Y, RADIUS);
}

#[test]
fn fov_fov_with_sample_map() {
    let mut fov = SampleMap::new(10, 10);
    for x in 1..10 {
        fov.set_transparent(x, 3, false);
    }
    for y in 0..10 {
        fov.set_transparent(9, y, false);
    }
    fov.calculate_fov(3, 2, 10);

    println!("{:?}", fov);
}

#[test]
fn fov_fov_to_vector() {
    let mut fov = SampleMap::new(WIDTH, HEIGHT);

    fov.calculate_fov(POSITION_X, POSITION_Y, RADIUS);
}

#[test]
fn fov_map_behind_wall_is_hidden() {
    let mut fov = FovMap::new(10, 10);
    for x in 1..10 {
        fov.set_transparent(x, 3, false);
    }
    fov.calculate_fov(3, 2, 10);
    assert!(fov.is_in_fov(3, 2));
    assert!(fov.is_in_fov(3, 0));
    assert!(fov.is_in_fov(3, 3));
    assert!(!fov.is_in_fov(3, 4));
    assert!(!fov.is_in_fov(5, 8));
}

#[test]
fn fov_map_origin_seen_in_a_single_row() {
    let mut fov = FovMap::new(1, 5);
    fov.calculate_fov(0, 2, 3);
    assert!(fov.is_in_fov(0, 2));
    assert!(!fov.is_in_fov(0, 1));
}

#[test]
fn fov_map_recompute_forgets_old_view() {
    let mut fov = FovMap::new(10, 10);
    fov.calculate_fov(0, 0, 2);
    assert!(fov.is_in_fov(1, 1));
    fov.calculate_fov(9, 9, 2);
    assert!(!fov.is_in_fov(1, 1));
    assert!(fov.is_in_fov(8, 8));
}

#[test]
fn sample_map_radius_zero_sees_origin() {
    let mut fov = SampleMap::new(5, 5);
    fov.calculate_fov(2, 2, 0);
    assert_eq!(fov.dimensions(), (5, 5));
}

const RANDOM_WALLS: i32 = 10;

#[test]
fn lib_fov_with_wall_to_vector() {
    let mut fov = SampleMap::new(WIDTH, HEIGHT);
    let mut rng = StdRng::seed_from_u64(42);
    for _ in 0..RANDOM_WALLS {
        let (x, y) = (rng.gen_range(0, WIDTH), rng.gen_range(0, HEIGHT));
        fov.set_transparent(x, y, false);
    }
    fov.set_transparent(POSITION_X, POSITION_Y, true);

    fov.calculate_fov(POSITION_X, POSITION_Y, RADIUS);

    println!("{:?}", fov);
}

#[test]
fn fov_fov_with_wall_to_vector() {
    let mut fov = SampleMap::new(WIDTH, HEIGHT);
    let mut rng = StdRng::seed_from_u64(42);
    for _ in 0..RANDOM_WALLS {
        let (x, y) = (rng.gen_range(0, WIDTH), rng.gen_range(0, HEIGHT));
        fov.set_transparent(x, y, false);
    }
    fov.set_transparent(POSITION_X, POSITION_Y, true);

    fov.calculate_fov(POSITION_X, POSITION_Y, RADIUS);

    println!("{:?}", fov);
}
