use diskify::disk::{Cost, Disk};
use diskify::engine::{choose_background, diskify, render, subdivide, take_worst, Config, WorkItem};
use diskify::raster::{Raster, Rgb};

const A: Rgb = Rgb { r: 255, g: 0, b: 0 };
const B: Rgb = Rgb { r: 0, g: 255, b: 0 };
const C: Rgb = Rgb { r: 0, g: 0, b: 255 };
const D: Rgb = Rgb { r: 255, g: 255, b: 255 };

fn quadrants() -> Raster {
    let mut px = Vec::new();
    for y in 0..4u32 {
        for x in 0..4u32 {
            px.push(match (x < 2, y < 2) {
                (true, true) => A,
                (false, true) => B,
                (true, false) => C,
                (false, false) => D,
            });
        }
    }
    Raster::from_pixels(4, 4, px).unwrap()
}

fn item(num: u64, den: u64, top: u32) -> WorkItem {
    WorkItem { cost: Cost { num, den }, disk: Disk::new(top, 0, 1, Rgb::black()) }
}

#[test]
fn default_config() {
    let c = Config::default();
    assert_eq!(c, Config::new(8, 1024));
}

#[test]
fn take_worst_prefers_largest_cost() {
    let mut items = vec![item(1, 2, 0), item(3, 4, 1), item(1, 4, 2)];
    let w = take_worst(&mut items);
    assert_eq!(w.disk.top, 1);
    assert_eq!(items.len(), 2);
    assert_eq!(items[0].disk.top, 0);
    assert_eq!(items[1].disk.top, 2);
}

#[test]
fn take_worst_breaks_ties_by_latest() {
    let mut items = vec![item(1, 2, 0), item(2, 4, 1), item(0, 1, 2), item(3, 6, 3), item(1, 8, 4)];
    assert_eq!(take_worst(&mut items).disk.top, 3);
    assert_eq!(take_worst(&mut items).disk.top, 1);
    assert_eq!(take_worst(&mut items).disk.top, 0);
}

#[test]
fn zero_iterations_keep_initial_disk() {
    let img = quadrants();
    let disks = subdivide(&img, &Config::new(1, 0));
    assert_eq!(disks, vec![Disk::new(0, 0, 4, Rgb::new(127, 127, 127))]);
}

#[test]
fn halts_when_worst_disk_is_small() {
    let img = quadrants();
    // the whole raster is already at the floor: one step, which halts
    let disks = subdivide(&img, &Config::new(4, 100));
    assert_eq!(disks, vec![Disk::new(0, 0, 4, Rgb::new(127, 127, 127))]);
}

#[test]
fn scenario_quadrants() {
    let img = quadrants();
    let cfg = Config::new(1, 3);
    let disks = subdivide(&img, &cfg);
    // step 1 splits the whole raster into four flat quadrants of cost zero;
    // step 2 splits the latest of them, the bottom-right one, into disks at the
    // floor; step 3 finds such a disk worst and halts
    let expected = vec![
        Disk::new(0, 0, 2, A),
        Disk::new(2, 0, 2, C),
        Disk::new(0, 2, 2, B),
        Disk::new(2, 2, 1, D),
        Disk::new(3, 2, 1, D),
        Disk::new(2, 3, 1, D),
        Disk::new(3, 3, 1, D),
    ];
    assert_eq!(disks, expected);
    // each two-wide disk leaves its top-left corner unpainted
    let bg = choose_background(&disks, &img);
    assert_eq!(bg, Rgb::new(85, 85, 85));
    let out = diskify(&img, &cfg);
    let mut want = Vec::new();
    for y in 0..4u32 {
        for x in 0..4u32 {
            let p = if (x, y) == (0, 0) || (x, y) == (2, 0) || (x, y) == (0, 2) {
                bg
            } else {
                img.get_pixel(x, y)
            };
            want.push(p);
        }
    }
    assert_eq!(out.pixels, want);
}

#[test]
fn run_disks_never_overlap() {
    let mut px = Vec::new();
    for y in 0..16u32 {
        for x in 0..16u32 {
            px.push(Rgb::new((x * 16) as u8, (y * 16) as u8, ((x * y) % 256) as u8));
        }
    }
    let img = Raster::from_pixels(16, 16, px).unwrap();
    let disks = subdivide(&img, &Config::new(2, 20));
    let mut owner = vec![0usize; 256];
    for (k, d) in disks.iter().enumerate() {
        for x in d.left..d.left + d.width {
            for y in d.top..d.top + d.width {
                if d.inside(x, y) {
                    assert_eq!(owner[(y * 16 + x) as usize], 0);
                    owner[(y * 16 + x) as usize] = k + 1;
                }
            }
        }
    }
}

#[test]
fn background_of_empty_squares_is_black() {
    let img = quadrants();
    let disks = vec![Disk::new(0, 0, 0, A), Disk::new(3, 3, 0, B)];
    assert_eq!(choose_background(&disks, &img), Rgb::black());
    assert_eq!(choose_background(&Vec::new(), &img), Rgb::black());
}

#[test]
fn render_paints_in_order_over_background() {
    let bg = Rgb::new(1, 2, 3);
    let disks = vec![Disk::new(0, 0, 2, A), Disk::new(2, 2, 2, B)];
    let out = render(&disks, bg, 4, 4);
    assert_eq!(out.get_pixel(0, 0), bg);
    assert_eq!(out.get_pixel(1, 1), A);
    assert_eq!(out.get_pixel(3, 3), B);
    assert_eq!(out.get_pixel(2, 2), bg);
    assert_eq!(out.get_pixel(3, 0), bg);
}
