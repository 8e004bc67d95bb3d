use diskify::disk::{Cost, Disk};
use diskify::raster::{Raster, Rgb};

fn quadrants() -> Raster {
    let a = Rgb::new(255, 0, 0);
    let b = Rgb::new(0, 255, 0);
    let c = Rgb::new(0, 0, 255);
    let d = Rgb::new(255, 255, 255);
    let mut px = Vec::new();
    for y in 0..4u32 {
        for x in 0..4u32 {
            px.push(match (x < 2, y < 2) {
                (true, true) => a,
                (false, true) => b,
                (true, false) => c,
                (false, false) => d,
            });
        }
    }
    Raster::from_pixels(4, 4, px).unwrap()
}

#[test]
fn from_pixels_checks_size() {
    assert!(Raster::from_pixels(2, 2, vec![Rgb::black(); 3]).is_none());
    assert!(Raster::from_pixels(70000, 1, vec![Rgb::black(); 70000]).is_none());
    let r = Raster::from_pixels(2, 1, vec![Rgb::new(1, 2, 3), Rgb::new(4, 5, 6)]).unwrap();
    assert_eq!(r.width(), 2);
    assert_eq!(r.height(), 1);
    assert_eq!(r.get_pixel(1, 0), Rgb::new(4, 5, 6));
}

#[test]
fn put_pixel_changes_one_pixel() {
    let mut r = Raster::from_pixel(3, 2, Rgb::black());
    r.put_pixel(2, 1, Rgb::new(9, 9, 9));
    assert_eq!(r.get_pixel(2, 1), Rgb::new(9, 9, 9));
    assert_eq!(r.get_pixel(1, 1), Rgb::black());
    assert_eq!(r.get_pixel(2, 0), Rgb::black());
}

#[test]
fn choose_color_whole_raster() {
    let img = quadrants();
    let d = Disk::new(0, 0, 4, Rgb::black());
    // red: 4 * 255 + 4 * 255 = 2040, / 16 = 127
    assert_eq!(d.choose_color(&img), Rgb::new(127, 127, 127));
}

#[test]
fn choose_color_truncates() {
    let img = Raster::from_pixels(
        2,
        2,
        vec![Rgb::new(0, 0, 0), Rgb::new(1, 1, 1), Rgb::new(1, 1, 1), Rgb::new(1, 1, 1)],
    )
    .unwrap();
    let d = Disk::new(0, 0, 2, Rgb::black());
    assert_eq!(d.choose_color(&img), Rgb::new(0, 0, 0));
}

#[test]
fn choose_color_of_quadrant() {
    let img = quadrants();
    assert_eq!(Disk::new(0, 2, 2, Rgb::black()).choose_color(&img), Rgb::new(0, 255, 0));
    assert_eq!(Disk::new(2, 0, 2, Rgb::black()).choose_color(&img), Rgb::new(0, 0, 255));
}

#[test]
fn cost_exact_value() {
    let img = quadrants();
    let d = Disk::new(0, 0, 4, Rgb::new(127, 127, 127));
    // per channel: 8 pixels at 255 (diff 128) and 8 at 0 (diff 127)
    let per_channel = 8 * 128 * 128 + 8 * 127 * 127;
    assert_eq!(d.cost(&img), Cost { num: 3 * per_channel, den: 48 });
    let q = Disk::new(2, 2, 2, Rgb::new(255, 255, 255));
    assert_eq!(q.cost(&img).num, 0);
    assert_eq!(Disk::new(0, 0, 0, Rgb::black()).cost(&img), Cost::zero());
}

#[test]
fn mean_color_costs_no_more_than_others() {
    let img = quadrants();
    let d = Disk::new(0, 0, 2, Rgb::black());
    let mean = d.choose_color(&img);
    let best = d.with_color(mean).cost(&img);
    for other in [Rgb::new(0, 0, 0), Rgb::new(254, 1, 0), Rgb::new(128, 128, 128)] {
        assert!(best.le(&d.with_color(other).cost(&img)));
    }
}

#[test]
fn backgrounds_sums_of_corners() {
    let img = quadrants();
    let d = Disk::new(0, 0, 4, Rgb::black());
    // outside the circle of centre (2, 2), radius 2: (0,0), (1,0), (0,1), (3,0), (0,3)
    let mut count = 0u64;
    let mut sums = [0u64; 3];
    for x in 0..4u32 {
        for y in 0..4u32 {
            if !d.inside(x, y) {
                count += 1;
                let p = img.get_pixel(x, y);
                sums[0] += p.r as u64;
                sums[1] += p.g as u64;
                sums[2] += p.b as u64;
            }
        }
    }
    assert_eq!(count, 5);
    assert_eq!(sums, [255 * 3, 255, 255]);
    assert_eq!(d.backgrounds_sums(&img), (count, sums));
    let small = Disk::new(0, 0, 2, Rgb::black());
    assert_eq!(small.backgrounds_sums(&img), (1, [255, 0, 0]));
    assert_eq!(Disk::new(1, 1, 0, Rgb::black()).backgrounds_sums(&img), (0, [0, 0, 0]));
}

#[test]
fn draw_paints_circle_only() {
    let mut img = Raster::from_pixel(4, 4, Rgb::black());
    let white = Rgb::new(255, 255, 255);
    Disk::new(0, 0, 2, white).draw(&mut img);
    assert_eq!(img.get_pixel(0, 0), Rgb::black());
    assert_eq!(img.get_pixel(1, 0), white);
    assert_eq!(img.get_pixel(0, 1), white);
    assert_eq!(img.get_pixel(1, 1), white);
    // the circle reaches (2, 1) but the square does not
    assert_eq!(img.get_pixel(2, 1), Rgb::black());
}

#[test]
fn floored_mean_can_lose_to_neighbour() {
    let img = Raster::from_pixels(
        2,
        2,
        vec![Rgb::new(0, 0, 0), Rgb::new(1, 1, 1), Rgb::new(1, 1, 1), Rgb::new(1, 1, 1)],
    )
    .unwrap();
    let d = Disk::new(0, 0, 2, Rgb::black());
    let mean = d.choose_color(&img);
    let at_mean = d.with_color(mean).cost(&img);
    let at_one = d.with_color(Rgb::new(1, 1, 1)).cost(&img);
    assert_eq!(at_mean, Cost { num: 9, den: 12 });
    assert_eq!(at_one, Cost { num: 3, den: 12 });
    assert!(!at_mean.le(&at_one));
}
