use diskify::disk::{abs_diff, square_abs_diff, Cost, Disk};
use diskify::raster::Rgb;

fn red() -> Rgb {
    Rgb::new(255, 0, 0)
}

#[test]
fn abs_diff_is_symmetric() {
    assert_eq!(abs_diff(3, 10), 7);
    assert_eq!(abs_diff(10, 3), 7);
    assert_eq!(abs_diff(5, 5), 0);
    assert_eq!(abs_diff(0, u32::MAX), u32::MAX);
}

#[test]
fn square_abs_diff_squares() {
    assert_eq!(square_abs_diff(3, 10), 49);
    assert_eq!(square_abs_diff(255, 0), 65025);
    assert_eq!(square_abs_diff(0, 0), 0);
}

#[test]
fn new_and_width() {
    let d = Disk::new(1, 2, 6, red());
    assert_eq!(d.top, 1);
    assert_eq!(d.left, 2);
    assert_eq!(d.width(), 6);
    assert_eq!(d.color, red());
}

#[test]
fn set_color_and_with_color() {
    let mut d = Disk::new(0, 0, 4, red());
    let blue = Rgb::new(0, 0, 255);
    assert_eq!(d.with_color(blue), Disk::new(0, 0, 4, blue));
    d.set_color(blue);
    assert_eq!(d, Disk::new(0, 0, 4, blue));
}

#[test]
fn inside_uses_integer_circle() {
    // centre (2, 2), radius 2
    let d = Disk::new(0, 0, 4, red());
    assert!(!d.inside(0, 0));
    assert!(d.inside(2, 0));
    assert!(d.inside(2, 2));
    assert!(d.inside(4, 2));
    assert!(!d.inside(4, 4));
    // odd width: centre (1, 1), radius 1
    let e = Disk::new(0, 0, 3, red());
    assert!(!e.inside(2, 2));
    assert!(e.inside(1, 2));
    // width one: only the corner pixel itself
    let f = Disk::new(5, 7, 1, red());
    assert!(f.inside(7, 5));
    assert!(!f.inside(8, 5));
}

#[test]
fn split_even_width_tiles_parent() {
    let d = Disk::new(2, 4, 4, red());
    let c = d.split();
    assert_eq!(c[0], Disk::new(2, 4, 2, red()));
    assert_eq!(c[1], Disk::new(4, 4, 2, red()));
    assert_eq!(c[2], Disk::new(2, 6, 2, red()));
    assert_eq!(c[3], Disk::new(4, 6, 2, red()));
    for x in 4..8u32 {
        for y in 2..6u32 {
            let n = c
                .iter()
                .filter(|k| k.left <= x && x < k.left + k.width && k.top <= y && y < k.top + k.width)
                .count();
            assert_eq!(n, 1);
        }
    }
}

#[test]
fn split_odd_width_leaves_strip() {
    let d = Disk::new(0, 0, 5, red());
    let c = d.split();
    assert!(c.iter().all(|k| k.width == 2));
    let strip = d.width - 2 * (d.width / 2);
    assert_eq!(strip, 1);
    for x in 0..5u32 {
        for y in 0..5u32 {
            let n = c
                .iter()
                .filter(|k| k.left <= x && x < k.left + k.width && k.top <= y && y < k.top + k.width)
                .count();
            let in_strip = x >= 4 || y >= 4;
            assert_eq!(n, if in_strip { 0 } else { 1 });
        }
    }
}

#[test]
fn cost_ordering() {
    let a = Cost { num: 1, den: 3 };
    let b = Cost { num: 2, den: 6 };
    let c = Cost { num: 1, den: 2 };
    assert!(a.le(&b));
    assert!(b.le(&a));
    assert!(a.le(&c));
    assert!(!c.le(&a));
    assert!(Cost::zero().le(&a));
}
