use vstd::prelude::*;

use crate::disk::{Cost, Disk};
use crate::raster::{Raster, Rgb, MAX_SIDE, lemma_area_bound};

verus! {

/// Settings of one run: disks of width `min_width` or less are never split,
/// and at most `iterations` subdivision steps are taken.
#[derive(Clone, Copy, Debug, PartialEq, Eq, Structural)]
pub struct Config {
    pub min_width: u32,
    pub iterations: u32,
}

pub const DEFAULT_MIN_WIDTH: u32 = 8;

pub const DEFAULT_ITERATIONS: u32 = 1024;

impl Config {
    pub fn new(min_width: u32, iterations: u32) -> (c: Config)
        ensures
            c == (Config { min_width, iterations }),
    {
        Config { min_width, iterations }
    }
}

impl Default for Config {
    fn default() -> (c: Config)
        ensures
            c == (Config { min_width: DEFAULT_MIN_WIDTH, iterations: DEFAULT_ITERATIONS }),
    {
        Config { min_width: DEFAULT_MIN_WIDTH, iterations: DEFAULT_ITERATIONS }
    }
}

/// A disk waiting in the worklist, with the cost it was ranked by.
#[derive(Clone, Copy, Debug, PartialEq, Eq, Structural)]
pub struct WorkItem {
    pub cost: Cost,
    pub disk: Disk,
}

/// Index of the item to refine next: the largest cost, and among equal
/// costs the one inserted last (the worklist keeps insertion order).
pub open spec fn worst_index(items: Seq<WorkItem>) -> int
    decreases items.len(),
{
    if items.len() <= 1 {
        0
    } else {
        let b = worst_index(items.drop_last());
        if items[b].cost.spec_le(items.last().cost) {
            items.len() - 1
        } else {
            b
        }
    }
}

pub proof fn lemma_worst_index_in_range(items: Seq<WorkItem>)
    requires
        items.len() > 0,
    ensures
        0 <= worst_index(items) < items.len(),
    decreases items.len(),
{
    if items.len() > 1 {
        lemma_worst_index_in_range(items.drop_last());
    }
}

pub open spec fn costs_wf(items: Seq<WorkItem>) -> bool {
    forall|k: int| 0 <= k < items.len() ==> (#[trigger] items[k]).cost.wf()
}

proof fn lemma_cost_le_trans(a: Cost, b: Cost, c: Cost)
    requires
        a.wf(),
        b.wf(),
        c.wf(),
        a.spec_le(b),
        b.spec_le(c),
    ensures
        a.spec_le(c),
{
    let (an, ad, bn, bd, cn, cd) = (a.num as int, a.den as int, b.num as int, b.den as int, c.num as int, c.den as int);
    assert(an * cd <= cn * ad) by (nonlinear_arith)
        requires
            an * bd <= bn * ad,
            bn * cd <= cn * bd,
            ad > 0,
            bd > 0,
            cd > 0,
            an >= 0,
            bn >= 0,
            cn >= 0,
    {
        assert(an * bd * cd <= bn * ad * cd);
        assert(bn * cd * ad <= cn * bd * ad);
    }
}

/// The worst item has the largest cost, and every later item has a strictly
/// smaller one: among equal costs the latest inserted is taken.
pub proof fn lemma_worst_is_latest_maximum(items: Seq<WorkItem>)
    requires
        items.len() > 0,
        costs_wf(items),
    ensures
        forall|j: int| 0 <= j < items.len() ==> (#[trigger] items[j]).cost.spec_le(items[worst_index(items)].cost),
        forall|j: int|
            worst_index(items) < j < items.len() ==> !items[worst_index(items)].cost.spec_le(
                (#[trigger] items[j]).cost,
            ),
    decreases items.len(),
{
    lemma_worst_index_in_range(items);
    if items.len() > 1 {
        let p = items.drop_last();
        assert forall|k: int| 0 <= k < p.len() implies (#[trigger] p[k]).cost.wf() by {
            assert(p[k] == items[k]);
        }
        lemma_worst_is_latest_maximum(p);
        lemma_worst_index_in_range(p);
        let b = worst_index(p);
        let last = items.last();
        assert(items[b] == p[b]);
        assert(items[items.len() - 1] == last);
        if items[b].cost.spec_le(last.cost) {
            assert forall|j: int| 0 <= j < items.len() implies (#[trigger] items[j]).cost.spec_le(
                last.cost,
            ) by {
                if j < items.len() - 1 {
                    assert(items[j] == p[j]);
                    lemma_cost_le_trans(items[j].cost, items[b].cost, last.cost);
                }
            }
        } else {
            let (bn, bd, ln, ld) = (items[b].cost.num as int, items[b].cost.den as int, last.cost.num as int, last.cost.den as int);
            assert(ln * bd <= bn * ld) by (nonlinear_arith)
                requires
                    !(bn * ld <= ln * bd),
            ;
            assert forall|j: int| 0 <= j < items.len() implies (#[trigger] items[j]).cost.spec_le(
                items[b].cost,
            ) by {
                if j < items.len() - 1 {
                    assert(items[j] == p[j]);
                }
            }
            assert forall|j: int| b < j < items.len() implies !items[b].cost.spec_le(
                (#[trigger] items[j]).cost,
            ) by {
                if j < items.len() - 1 {
                    assert(items[j] == p[j]);
                }
            }
        }
    }
}

/// Removes and returns the worst item of a non-empty worklist.
pub fn take_worst(items: &mut Vec<WorkItem>) -> (r: WorkItem)
    requires
        old(items)@.len() > 0,
    ensures
        r == old(items)@[worst_index(old(items)@)],
        final(items)@ == old(items)@.remove(worst_index(old(items)@)),
        costs_wf(old(items)@) ==> forall|j: int|
            0 <= j < old(items)@.len() ==> (#[trigger] old(items)@[j]).cost.spec_le(r.cost),
        costs_wf(old(items)@) ==> forall|j: int|
            worst_index(old(items)@) < j < old(items)@.len() ==> !r.cost.spec_le(
                (#[trigger] old(items)@[j]).cost,
            ),
{
    let ghost s = items@;
    let mut best: usize = 0;
    let mut i: usize = 1;
    while i < items.len()
        invariant
            items@ == s,
            1 <= i <= s.len(),
            best == worst_index(s.take(i as int)),
        decreases s.len() - i,
    {
        proof {
            lemma_worst_index_in_range(s.take(i as int));
            assert(s.take(i as int + 1).drop_last() =~= s.take(i as int));
        }
        if items[best].cost.le(&items[i].cost) {
            best = i;
        }
        i = i + 1;
    }
    proof {
        assert(s.take(s.len() as int) =~= s);
        lemma_worst_index_in_range(s);
        if costs_wf(s) {
            lemma_worst_is_latest_maximum(s);
        }
    }
    items.remove(best)
}

pub open spec fn colored(d: Disk, color: Rgb) -> Disk {
    Disk { color, ..d }
}

/// A child of a split, recoloured to its mean and costed; a child at or below
/// the width floor gets cost zero.
pub open spec fn child_item(img: Raster, cfg: Config, d: Disk) -> WorkItem {
    let c = colored(d, d.mean_color(img));
    WorkItem {
        cost: if c.width <= cfg.min_width {
            Cost::spec_zero()
        } else {
            c.spec_cost(img)
        },
        disk: c,
    }
}

pub open spec fn child_items(img: Raster, cfg: Config, d: Disk) -> Seq<WorkItem> {
    d.spec_children().map_values(|c: Disk| child_item(img, cfg, c))
}

/// The disk covering the whole raster, coloured by its mean.
pub open spec fn initial_disk(img: Raster) -> Disk {
    let d = Disk { top: 0, left: 0, width: img.width, color: Rgb { r: 0, g: 0, b: 0 } };
    colored(d, d.mean_color(img))
}

pub open spec fn initial_items(img: Raster) -> Seq<WorkItem> {
    seq![WorkItem { cost: initial_disk(img).spec_cost(img), disk: initial_disk(img) }]
}

/// Whether a step on `items` halts the run: the worst disk is too small to split.
pub open spec fn halts(cfg: Config, items: Seq<WorkItem>) -> bool {
    items[worst_index(items)].disk.width <= cfg.min_width
}

/// The worklist after one step.
pub open spec fn step(img: Raster, cfg: Config, items: Seq<WorkItem>) -> Seq<WorkItem> {
    let k = worst_index(items);
    let rest = items.remove(k);
    if halts(cfg, items) {
        rest.push(WorkItem { cost: Cost::spec_zero(), disk: items[k].disk })
    } else {
        rest + child_items(img, cfg, items[k].disk)
    }
}

/// The worklist after at most `fuel` steps, stopping after a halting step.
pub open spec fn run(img: Raster, cfg: Config, items: Seq<WorkItem>, fuel: nat) -> Seq<WorkItem>
    decreases fuel,
{
    if fuel == 0 || items.len() == 0 {
        items
    } else if halts(cfg, items) {
        step(img, cfg, items)
    } else {
        run(img, cfg, step(img, cfg, items), (fuel - 1) as nat)
    }
}

/// The final disk set of a run on `img`.
pub open spec fn final_disks(img: Raster, cfg: Config) -> Seq<Disk> {
    run(img, cfg, initial_items(img), cfg.iterations as nat).map_values(|it: WorkItem| it.disk)
}

pub open spec fn all_fit(img: Raster, items: Seq<WorkItem>) -> bool {
    forall|k: int| 0 <= k < items.len() ==> (#[trigger] items[k]).disk.fits(img)
}

fn make_child(img: &Raster, cfg: &Config, d: &Disk) -> (r: WorkItem)
    requires
        img.wf(),
        d.fits(*img),
    ensures
        r == child_item(*img, *cfg, *d),
        r.disk.fits(*img),
{
    let color = d.choose_color(img);
    let c = d.with_color(color);
    let cost = if c.width() <= cfg.min_width {
        Cost::zero()
    } else {
        c.cost(img)
    };
    WorkItem { cost, disk: c }
}

/// Runs the greedy subdivision on a square raster and returns the final disk set.
///
/// The run stops as a whole the first time the worst disk is at or below the
/// width floor, even where larger disks of positive cost remain; that disk is
/// put back with cost zero. Splitting a disk of odd width leaves a strip along
/// its right and bottom edges that no child covers.
pub fn subdivide(img: &Raster, cfg: &Config) -> (r: Vec<Disk>)
    requires
        img.wf(),
        img.width == img.height,
    ensures
        r@ == final_disks(*img, *cfg),
        forall|k: int| 0 <= k < r@.len() ==> (#[trigger] r@[k]).fits(*img),
{
    let first = Disk::new(0, 0, img.width(), Rgb::black());
    let color = first.choose_color(img);
    let first = first.with_color(color);
    let first_cost = first.cost(img);
    let mut items: Vec<WorkItem> = Vec::new();
    items.push(WorkItem { cost: first_cost, disk: first });
    proof {
        assert(items@ =~= initial_items(*img));
    }
    let ghost target = run(*img, *cfg, initial_items(*img), cfg.iterations as nat);
    let mut i: u32 = 0;
    let mut halted = false;
    while i < cfg.iterations && !halted
        invariant
            img.wf(),
            i <= cfg.iterations,
            items@.len() > 0,
            all_fit(*img, items@),
            halted ==> items@ == target,
            !halted ==> run(*img, *cfg, items@, (cfg.iterations - i) as nat) == target,
        decreases cfg.iterations - i + (if halted { 0int } else { 1int }),
    {
        let ghost before = items@;
        proof {
            lemma_worst_index_in_range(before);
        }
        let worst = take_worst(&mut items);
        if worst.disk.width() <= cfg.min_width {
            items.push(WorkItem { cost: Cost::zero(), disk: worst.disk });
            halted = true;
            proof {
                assert(items@ =~= step(*img, *cfg, before));
            }
        } else {
            let parts = worst.disk.split();
            let ghost kids = child_items(*img, *cfg, worst.disk);
            let mut k: usize = 0;
            while k < 4
                invariant
                    img.wf(),
                    k <= 4,
                    worst.disk.fits(*img),
                    parts@ == worst.disk.spec_children(),
                    kids == child_items(*img, *cfg, worst.disk),
                    items@ == before.remove(worst_index(before)) + kids.take(k as int),
                    all_fit(*img, items@),
                decreases 4 - k,
            {
                let child = make_child(img, cfg, &parts[k]);
                items.push(child);
                proof {
                    assert(kids.take(k as int + 1) =~= kids.take(k as int).push(child));
                }
                k = k + 1;
            }
            proof {
                assert(kids.take(4) =~= kids);
                assert(items@ =~= step(*img, *cfg, before));
            }
            i = i + 1;
        }
    }
    let ghost fin = items@;
    let mut out: Vec<Disk> = Vec::new();
    let mut j: usize = 0;
    while j < items.len()
        invariant
            items@ == fin,
            j <= fin.len(),
            out@ == fin.take(j as int).map_values(|it: WorkItem| it.disk),
            all_fit(*img, fin),
        decreases fin.len() - j,
    {
        out.push(items[j].disk);
        proof {
            assert(fin.take(j as int + 1).map_values(|it: WorkItem| it.disk) =~= fin.take(
                j as int,
            ).map_values(|it: WorkItem| it.disk).push(fin[j as int].disk));
        }
        j = j + 1;
    }
    proof {
        assert(fin.take(fin.len() as int) =~= fin);
    }
    out
}

/// Number of pixels, over all disks, inside a bounding square but outside its circle.
pub open spec fn total_count(disks: Seq<Disk>) -> int
    decreases disks.len(),
{
    if disks.len() == 0 {
        0
    } else {
        total_count(disks.drop_last()) + disks.last().square_sum(disks.last().outside_count_fn())
    }
}

/// Sum of channel `c` over the same pixels as `total_count`.
pub open spec fn total_channel(disks: Seq<Disk>, img: Raster, c: int) -> int
    decreases disks.len(),
{
    if disks.len() == 0 {
        0
    } else {
        total_channel(disks.drop_last(), img, c) + disks.last().square_sum(
            disks.last().outside_channel_fn(img, c),
        )
    }
}

/// Per-channel floor of the mean over all those pixels; black when there are none.
pub open spec fn background_of(disks: Seq<Disk>, img: Raster) -> Rgb {
    let n = total_count(disks);
    if n == 0 {
        Rgb { r: 0, g: 0, b: 0 }
    } else {
        Rgb {
            r: (total_channel(disks, img, 0) / n) as u8,
            g: (total_channel(disks, img, 1) / n) as u8,
            b: (total_channel(disks, img, 2) / n) as u8,
        }
    }
}

proof fn lemma_accumulate(i: int, c: int)
    requires
        0 <= i <= usize::MAX,
        0 <= c <= 255 * MAX_SIDE * MAX_SIDE,
    ensures
        (i + 1) * c == i * c + c,
        i * c + c <= u128::MAX,
{
    assert((i + 1) * c == i * c + c) by (nonlinear_arith);
    assert(i * c + c <= u128::MAX) by (nonlinear_arith)
        requires
            0 <= i <= usize::MAX,
            0 <= c <= 255 * MAX_SIDE * MAX_SIDE,
    ;
}

/// Estimates the canvas background from the pixels that the disks leave unpainted.
pub fn choose_background(disks: &Vec<Disk>, img: &Raster) -> (c: Rgb)
    requires
        img.wf(),
        forall|k: int| 0 <= k < disks@.len() ==> (#[trigger] disks@[k]).fits(*img),
    ensures
        c == background_of(disks@, *img),
{
    let mut count: u128 = 0;
    let mut s0: u128 = 0;
    let mut s1: u128 = 0;
    let mut s2: u128 = 0;
    let mut i: usize = 0;
    while i < disks.len()
        invariant
            img.wf(),
            forall|k: int| 0 <= k < disks@.len() ==> (#[trigger] disks@[k]).fits(*img),
            i <= disks@.len(),
            count == total_count(disks@.take(i as int)),
            s0 == total_channel(disks@.take(i as int), *img, 0),
            s1 == total_channel(disks@.take(i as int), *img, 1),
            s2 == total_channel(disks@.take(i as int), *img, 2),
            count <= i * (MAX_SIDE * MAX_SIDE),
            s0 <= i * (255 * MAX_SIDE * MAX_SIDE),
            s1 <= i * (255 * MAX_SIDE * MAX_SIDE),
            s2 <= i * (255 * MAX_SIDE * MAX_SIDE),
        decreases disks@.len() - i,
    {
        let d = disks[i];
        let (n, sums) = d.backgrounds_sums(img);
        proof {
            lemma_area_bound(d.width as int, d.width as int);
            lemma_accumulate(i as int, MAX_SIDE * MAX_SIDE);
            lemma_accumulate(i as int, 255 * MAX_SIDE * MAX_SIDE);
            assert(disks@.take(i as int + 1).drop_last() =~= disks@.take(i as int));
        }
        count = count + n as u128;
        s0 = s0 + sums[0] as u128;
        s1 = s1 + sums[1] as u128;
        s2 = s2 + sums[2] as u128;
        i = i + 1;
    }
    proof {
        assert(disks@.take(disks@.len() as int) =~= disks@);
    }
    if count == 0 {
        Rgb::black()
    } else {
        Rgb { r: (s0 / count) as u8, g: (s1 / count) as u8, b: (s2 / count) as u8 }
    }
}

/// Colour of pixel `(x, y)` once `disks` are painted in order over `background`.
pub open spec fn painted(disks: Seq<Disk>, background: Rgb, x: int, y: int) -> Rgb
    decreases disks.len(),
{
    if disks.len() == 0 {
        background
    } else if disks.last().covers(x, y) {
        disks.last().color
    } else {
        painted(disks.drop_last(), background, x, y)
    }
}

/// A `width` by `height` canvas filled with `background`, with every disk painted on it.
pub fn render(disks: &Vec<Disk>, background: Rgb, width: u32, height: u32) -> (r: Raster)
    requires
        width <= MAX_SIDE,
        height <= MAX_SIDE,
        forall|k: int|
            0 <= k < disks@.len() ==> (#[trigger] disks@[k]).left + disks@[k].width <= width
                && disks@[k].top + disks@[k].width <= height,
    ensures
        r.wf(),
        r.width == width,
        r.height == height,
        forall|x: int, y: int| r.contains(x, y) ==> #[trigger] r.at(x, y) == painted(disks@, background, x, y),
{
    let mut img = Raster::from_pixel(width, height, background);
    let mut i: usize = 0;
    while i < disks.len()
        invariant
            img.wf(),
            img.width == width,
            img.height == height,
            i <= disks@.len(),
            forall|k: int|
                0 <= k < disks@.len() ==> (#[trigger] disks@[k]).left + disks@[k].width <= width
                    && disks@[k].top + disks@[k].width <= height,
            forall|x: int, y: int|
                img.contains(x, y) ==> #[trigger] img.at(x, y) == painted(
                    disks@.take(i as int),
                    background,
                    x,
                    y,
                ),
        decreases disks@.len() - i,
    {
        let d = disks[i];
        proof {
            assert(disks@.take(i as int + 1).drop_last() =~= disks@.take(i as int));
        }
        d.draw(&mut img);
        i = i + 1;
    }
    proof {
        assert(disks@.take(disks@.len() as int) =~= disks@);
    }
    img
}

/// Pixel `(x, y)` of the mosaic of `img`.
pub open spec fn mosaic_at(img: Raster, cfg: Config, x: int, y: int) -> Rgb {
    let disks = final_disks(img, cfg);
    painted(disks, background_of(disks, img), x, y)
}

/// The whole pipeline on a square raster: subdivide, estimate the background, render.
pub fn diskify(img: &Raster, cfg: &Config) -> (r: Raster)
    requires
        img.wf(),
        img.width == img.height,
    ensures
        r.wf(),
        r.width == img.width,
        r.height == img.height,
        forall|x: int, y: int| r.contains(x, y) ==> #[trigger] r.at(x, y) == mosaic_at(*img, *cfg, x, y),
{
    let disks = subdivide(img, cfg);
    let background = choose_background(&disks, img);
    render(&disks, background, img.width(), img.height())
}

} // verus!
