use vstd::prelude::*;

use crate::disk::{Disk, rect_sum, col_sum, channel_of, error_of, sq_diff};
use crate::engine::{Config, all_fit, child_items, child_item, colored, WorkItem, background_of, final_disks, halts, initial_disk, initial_items, lemma_worst_index_in_range, run, worst_index, step, total_count};
use crate::raster::{Raster, Rgb, MAX_SIDE};

verus! {

/// Splitting tiles the parent's square: each child's square lies in the
/// parent's, no two children share a pixel, and the pixels of the parent that
/// no child covers are exactly the strip of width `width - 2 * (width / 2)`
/// along its right and bottom edges (empty when the width is even).
pub proof fn lemma_split_tiles(d: Disk, x: int, y: int)
    requires
        d.top + d.width / 2 <= u32::MAX,
        d.left + d.width / 2 <= u32::MAX,
    ensures
        forall|k: int| 0 <= k < 4 && (#[trigger] d.spec_children()[k]).in_square(x, y) ==> d.in_square(x, y),
        forall|k1: int, k2: int|
            0 <= k1 < 4 && 0 <= k2 < 4 && k1 != k2 ==> !(#[trigger] d.spec_children()[k1].in_square(x, y)
                && #[trigger] d.spec_children()[k2].in_square(x, y)),
        (d.in_square(x, y) && !(exists|k: int| 0 <= k < 4 && (#[trigger] d.spec_children()[k]).in_square(x, y)))
            <==> (d.in_square(x, y) && (x >= d.left + 2 * (d.width / 2) || y >= d.top + 2 * (d.width / 2))),
        d.width % 2 == 0 ==> (d.in_square(x, y) <==> exists|k: int| 0 <= k < 4 && (#[trigger] d.spec_children()[k]).in_square(x, y)),
{
    let c = d.spec_children();
    if d.in_square(x, y) && x < d.left + 2 * (d.width / 2) && y < d.top + 2 * (d.width / 2) {
        let h = d.width / 2;
        let k = if x < d.left + h {
            if y < d.top + h { 0int } else { 1int }
        } else {
            if y < d.top + h { 2int } else { 3int }
        };
        assert(c[k].in_square(x, y));
    }
}

/// When every disk's square is empty, the background is black.
pub proof fn lemma_background_of_empty_squares(disks: Seq<Disk>, img: Raster)
    requires
        forall|k: int| 0 <= k < disks.len() ==> (#[trigger] disks[k]).width == 0,
    ensures
        background_of(disks, img) == (Rgb { r: 0, g: 0, b: 0 }),
{
    lemma_total_count_empty(disks);
}

proof fn lemma_total_count_empty(disks: Seq<Disk>)
    requires
        forall|k: int| 0 <= k < disks.len() ==> (#[trigger] disks[k]).width == 0,
    ensures
        total_count(disks) == 0,
    decreases disks.len(),
{
    if disks.len() > 0 {
        let p = disks.drop_last();
        assert forall|k: int| 0 <= k < p.len() implies (#[trigger] p[k]).width == 0 by {
            assert(p[k] == disks[k]);
        }
        lemma_total_count_empty(p);
        assert(disks.last().width == 0);
    }
}

/// Number of splits made by `run` with the same arguments.
pub open spec fn splits(img: Raster, cfg: Config, items: Seq<WorkItem>, fuel: nat) -> nat
    decreases fuel,
{
    if fuel == 0 || items.len() == 0 || halts(cfg, items) {
        0
    } else {
        1 + splits(img, cfg, step(img, cfg, items), (fuel - 1) as nat)
    }
}

/// A run splits at most `fuel` times, each split adding three disks, and a
/// halting step leaves the count of disks unchanged.
pub proof fn lemma_run_steps(img: Raster, cfg: Config, items: Seq<WorkItem>, fuel: nat)
    ensures
        splits(img, cfg, items, fuel) <= fuel,
        run(img, cfg, items, fuel).len() == items.len() + 3 * splits(img, cfg, items, fuel),
    decreases fuel,
{
    if fuel == 0 || items.len() == 0 {
    } else {
        lemma_worst_index_in_range(items);
        if !halts(cfg, items) {
            lemma_run_steps(img, cfg, step(img, cfg, items), (fuel - 1) as nat);
        }
    }
}

/// With no iterations the final disk set is the initial disk alone; in
/// general a run makes at most `iterations` splits.
pub proof fn lemma_iteration_bound(img: Raster, cfg: Config)
    ensures
        splits(img, cfg, initial_items(img), cfg.iterations as nat) <= cfg.iterations,
        final_disks(img, cfg).len() == 1 + 3 * splits(img, cfg, initial_items(img), cfg.iterations as nat),
        cfg.iterations == 0 ==> final_disks(img, cfg) == seq![initial_disk(img)],
{
    lemma_run_steps(img, cfg, initial_items(img), cfg.iterations as nat);
    if cfg.iterations == 0 {
        assert(final_disks(img, cfg) =~= seq![initial_disk(img)]);
    }
}

/// The bounding squares of `a` and `b` share no pixel.
pub open spec fn apart(a: Disk, b: Disk) -> bool {
    ||| a.width == 0
    ||| b.width == 0
    ||| a.left + a.width <= b.left
    ||| b.left + b.width <= a.left
    ||| a.top + a.width <= b.top
    ||| b.top + b.width <= a.top
}

/// The bounding square of `c` lies in that of `p`.
pub open spec fn within(c: Disk, p: Disk) -> bool {
    ||| c.width == 0
    ||| (p.left <= c.left && c.left + c.width <= p.left + p.width && p.top <= c.top && c.top + c.width
        <= p.top + p.width)
}

pub open spec fn all_apart(items: Seq<WorkItem>) -> bool {
    forall|i: int, j: int|
        0 <= i < items.len() && 0 <= j < items.len() && i != j ==> apart(
            #[trigger] items[i].disk,
            #[trigger] items[j].disk,
        )
}

proof fn lemma_children_geometry(img: Raster, cfg: Config, d: Disk)
    requires
        img.wf(),
        d.fits(img),
    ensures
        child_items(img, cfg, d).len() == 4,
        forall|m: int| 0 <= m < 4 ==> within((#[trigger] child_items(img, cfg, d)[m]).disk, d),
        forall|m: int| 0 <= m < 4 ==> (#[trigger] child_items(img, cfg, d)[m]).disk.fits(img),
        forall|m1: int, m2: int|
            0 <= m1 < 4 && 0 <= m2 < 4 && m1 != m2 ==> apart(
                (#[trigger] child_items(img, cfg, d)[m1]).disk,
                (#[trigger] child_items(img, cfg, d)[m2]).disk,
            ),
{
    let c = d.spec_children();
    let kids = child_items(img, cfg, d);
    assert forall|m: int| 0 <= m < 4 implies (#[trigger] kids[m]).disk.top == c[m].top && kids[m].disk.left
        == c[m].left && kids[m].disk.width == c[m].width by {
        assert(kids[m] == child_item(img, cfg, c[m]));
    }
}

proof fn lemma_step_keeps_apart(img: Raster, cfg: Config, items: Seq<WorkItem>)
    requires
        img.wf(),
        items.len() > 0,
        all_fit(img, items),
        all_apart(items),
    ensures
        all_fit(img, step(img, cfg, items)),
        all_apart(step(img, cfg, items)),
        step(img, cfg, items).len() > 0,
{
    lemma_worst_index_in_range(items);
    let k = worst_index(items);
    let rest = items.remove(k);
    let n = step(img, cfg, items);
    assert forall|i: int| 0 <= i < rest.len() implies #[trigger] rest[i] == items[if i < k {
        i
    } else {
        i + 1
    }] by {}
    let p = items[k].disk;
    assert(p.fits(img));
    if halts(cfg, items) {
        assert forall|i: int| 0 <= i < n.len() implies (#[trigger] n[i]).disk.fits(img) by {
            if i < rest.len() {
                assert(n[i] == rest[i]);
            }
        }
        assert forall|i: int, j: int|
            0 <= i < n.len() && 0 <= j < n.len() && i != j implies apart(
            #[trigger] n[i].disk,
            #[trigger] n[j].disk,
        ) by {
            let ii = if i == rest.len() { k } else if i < k { i } else { i + 1 };
            let jj = if j == rest.len() { k } else if j < k { j } else { j + 1 };
            assert(n[i].disk == items[ii].disk);
            assert(n[j].disk == items[jj].disk);
        }
    } else {
        let kids = child_items(img, cfg, p);
        lemma_children_geometry(img, cfg, p);
        assert(n == rest + kids);
        assert forall|i: int| 0 <= i < n.len() implies (#[trigger] n[i]).disk.fits(img) by {
            if i < rest.len() {
                assert(n[i] == rest[i]);
            } else {
                assert(n[i] == kids[i - rest.len()]);
            }
        }
        assert forall|i: int, j: int|
            0 <= i < n.len() && 0 <= j < n.len() && i != j implies apart(
            #[trigger] n[i].disk,
            #[trigger] n[j].disk,
        ) by {
            if i < rest.len() && j < rest.len() {
                let ii = if i < k { i } else { i + 1 };
                let jj = if j < k { j } else { j + 1 };
                assert(n[i] == items[ii]);
                assert(n[j] == items[jj]);
            } else if i < rest.len() {
                let ii = if i < k { i } else { i + 1 };
                assert(n[i] == items[ii]);
                assert(apart(items[ii].disk, items[k].disk));
                assert(n[j] == kids[j - rest.len()]);
                assert(within(kids[j - rest.len()].disk, p));
            } else if j < rest.len() {
                let jj = if j < k { j } else { j + 1 };
                assert(n[j] == items[jj]);
                assert(apart(items[jj].disk, items[k].disk));
                assert(n[i] == kids[i - rest.len()]);
                assert(within(kids[i - rest.len()].disk, p));
            } else {
                assert(n[i] == kids[i - rest.len()]);
                assert(n[j] == kids[j - rest.len()]);
            }
        }
    }
}

proof fn lemma_run_keeps_apart(img: Raster, cfg: Config, items: Seq<WorkItem>, fuel: nat)
    requires
        img.wf(),
        items.len() > 0,
        all_fit(img, items),
        all_apart(items),
    ensures
        all_apart(run(img, cfg, items, fuel)),
    decreases fuel,
{
    if fuel > 0 {
        lemma_step_keeps_apart(img, cfg, items);
        if !halts(cfg, items) {
            lemma_run_keeps_apart(img, cfg, step(img, cfg, items), (fuel - 1) as nat);
        }
    }
}

/// The painted pixels of any two disks of one run are disjoint.
pub proof fn lemma_final_disks_disjoint(img: Raster, cfg: Config, i: int, j: int, x: int, y: int)
    requires
        img.wf(),
        img.width == img.height,
        0 <= i < final_disks(img, cfg).len(),
        0 <= j < final_disks(img, cfg).len(),
        i != j,
    ensures
        !(final_disks(img, cfg)[i].covers(x, y) && final_disks(img, cfg)[j].covers(x, y)),
{
    let init = initial_items(img);
    assert(init[0].disk.fits(img));
    lemma_run_keeps_apart(img, cfg, init, cfg.iterations as nat);
    let r = run(img, cfg, init, cfg.iterations as nat);
    assert(apart(r[i].disk, r[j].disk));
}

/// Squared deviation of `v` from the constant `c`.
pub open spec fn sq_dev(v: spec_fn(int, int) -> int, c: int) -> spec_fn(int, int) -> int {
    |x: int, y: int| sq_diff(v(x, y), c)
}

proof fn lemma_col_sum3(
    f: spec_fn(int, int) -> int,
    g0: spec_fn(int, int) -> int,
    g1: spec_fn(int, int) -> int,
    g2: spec_fn(int, int) -> int,
    x: int,
    top: int,
    rows: nat,
)
    requires
        forall|a: int, b: int| #[trigger] f(a, b) == g0(a, b) + g1(a, b) + g2(a, b),
    ensures
        col_sum(f, x, top, rows) == col_sum(g0, x, top, rows) + col_sum(g1, x, top, rows) + col_sum(
            g2,
            x,
            top,
            rows,
        ),
    decreases rows,
{
    if rows > 0 {
        lemma_col_sum3(f, g0, g1, g2, x, top, (rows - 1) as nat);
        assert(f(x, top + rows - 1) == g0(x, top + rows - 1) + g1(x, top + rows - 1) + g2(x, top + rows - 1));
    }
}

proof fn lemma_rect_sum3(
    f: spec_fn(int, int) -> int,
    g0: spec_fn(int, int) -> int,
    g1: spec_fn(int, int) -> int,
    g2: spec_fn(int, int) -> int,
    left: int,
    top: int,
    cols: nat,
    rows: nat,
)
    requires
        forall|a: int, b: int| #[trigger] f(a, b) == g0(a, b) + g1(a, b) + g2(a, b),
    ensures
        rect_sum(f, left, top, cols, rows) == rect_sum(g0, left, top, cols, rows) + rect_sum(
            g1,
            left,
            top,
            cols,
            rows,
        ) + rect_sum(g2, left, top, cols, rows),
    decreases cols,
{
    if cols > 0 {
        lemma_rect_sum3(f, g0, g1, g2, left, top, (cols - 1) as nat, rows);
        lemma_col_sum3(f, g0, g1, g2, left + cols - 1, top, rows);
    }
}

proof fn lemma_col_bound(f: spec_fn(int, int) -> int, bound: int, x: int, top: int, rows: nat)
    requires
        forall|a: int, b: int| 0 <= #[trigger] f(a, b) <= bound,
    ensures
        0 <= col_sum(f, x, top, rows) <= bound * rows,
    decreases rows,
{
    if rows > 0 {
        let r1 = (rows - 1) as nat;
        lemma_col_bound(f, bound, x, top, r1);
        let a = f(x, top + rows - 1);
        let p = col_sum(f, x, top, r1);
        assert(col_sum(f, x, top, rows) == p + a);
        assert(0 <= p + a <= bound * rows) by (nonlinear_arith)
            requires
                0 <= p <= bound * r1,
                0 <= a <= bound,
                r1 == rows - 1,
        ;
    } else {
        assert(bound * rows == 0) by (nonlinear_arith)
            requires
                rows == 0,
        ;
    }
}

proof fn lemma_rect_bound(f: spec_fn(int, int) -> int, bound: int, left: int, top: int, cols: nat, rows: nat)
    requires
        forall|a: int, b: int| 0 <= #[trigger] f(a, b) <= bound,
    ensures
        0 <= rect_sum(f, left, top, cols, rows) <= bound * (cols * rows),
    decreases cols,
{
    if cols > 0 {
        let c1 = (cols - 1) as nat;
        lemma_rect_bound(f, bound, left, top, c1, rows);
        lemma_col_bound(f, bound, left + cols - 1, top, rows);
        let p = rect_sum(f, left, top, c1, rows);
        let q = col_sum(f, left + cols - 1, top, rows);
        assert(rect_sum(f, left, top, cols, rows) == p + q);
        assert(0 <= p + q <= bound * (cols * rows)) by (nonlinear_arith)
            requires
                0 <= p <= bound * (c1 * rows),
                0 <= q <= bound * rows,
                c1 == cols - 1,
        ;
    } else {
        assert(bound * (cols * rows) == 0) by (nonlinear_arith)
            requires
                cols == 0,
        ;
    }
}

proof fn lemma_col_expand(v: spec_fn(int, int) -> int, m: int, c: int, x: int, top: int, rows: nat)
    ensures
        col_sum(sq_dev(v, c), x, top, rows) == col_sum(sq_dev(v, m), x, top, rows) + 2 * (m - c) * (
        col_sum(v, x, top, rows) - rows * m) + rows * ((m - c) * (m - c)),
    decreases rows,
{
    if rows > 0 {
        let r1 = (rows - 1) as nat;
        lemma_col_expand(v, m, c, x, top, r1);
        let a = v(x, top + rows - 1);
        let lc = col_sum(sq_dev(v, c), x, top, r1);
        let lm = col_sum(sq_dev(v, m), x, top, r1);
        let sv = col_sum(v, x, top, r1);
        assert(sq_dev(v, c)(x, top + rows - 1) == sq_diff(a, c));
        assert(sq_dev(v, m)(x, top + rows - 1) == sq_diff(a, m));
        assert(col_sum(sq_dev(v, c), x, top, rows) == lc + sq_diff(a, c));
        assert(col_sum(sq_dev(v, m), x, top, rows) == lm + sq_diff(a, m));
        assert(col_sum(v, x, top, rows) == sv + a);
        assert(lc + sq_diff(a, c) == lm + sq_diff(a, m) + 2 * (m - c) * (sv + a - rows * m) + rows * ((m
            - c) * (m - c))) by (nonlinear_arith)
            requires
                lc == lm + 2 * (m - c) * (sv - r1 * m) + r1 * ((m - c) * (m - c)),
                r1 == rows - 1,
                sq_diff(a, c) == (a - c) * (a - c),
                sq_diff(a, m) == (a - m) * (a - m),
        ;
    } else {
        assert(2 * (m - c) * (0 - rows * m) + rows * ((m - c) * (m - c)) == 0) by (nonlinear_arith)
            requires
                rows == 0,
        ;
    }
}

proof fn lemma_rect_expand(v: spec_fn(int, int) -> int, m: int, c: int, left: int, top: int, cols: nat, rows: nat)
    ensures
        rect_sum(sq_dev(v, c), left, top, cols, rows) == rect_sum(sq_dev(v, m), left, top, cols, rows) + 2
            * (m - c) * (rect_sum(v, left, top, cols, rows) - (cols * rows) * m) + (cols * rows) * ((m - c)
            * (m - c)),
    decreases cols,
{
    if cols > 0 {
        let c1 = (cols - 1) as nat;
        lemma_rect_expand(v, m, c, left, top, c1, rows);
        lemma_col_expand(v, m, c, left + cols - 1, top, rows);
        let lc = rect_sum(sq_dev(v, c), left, top, c1, rows);
        let lm = rect_sum(sq_dev(v, m), left, top, c1, rows);
        let sv = rect_sum(v, left, top, c1, rows);
        let kc = col_sum(sq_dev(v, c), left + cols - 1, top, rows);
        let km = col_sum(sq_dev(v, m), left + cols - 1, top, rows);
        let kv = col_sum(v, left + cols - 1, top, rows);
        assert(rect_sum(sq_dev(v, c), left, top, cols, rows) == lc + kc);
        assert(rect_sum(sq_dev(v, m), left, top, cols, rows) == lm + km);
        assert(rect_sum(v, left, top, cols, rows) == sv + kv);
        assert(lc + kc == lm + km + 2 * (m - c) * (sv + kv - (cols * rows) * m) + (cols * rows) * ((m - c)
            * (m - c))) by (nonlinear_arith)
            requires
                lc == lm + 2 * (m - c) * (sv - (c1 * rows) * m) + (c1 * rows) * ((m - c) * (m - c)),
                kc == km + 2 * (m - c) * (kv - rows * m) + rows * ((m - c) * (m - c)),
                c1 == cols - 1,
        ;
    } else {
        assert(2 * (m - c) * (0 - (cols * rows) * m) + (cols * rows) * ((m - c) * (m - c)) == 0)
            by (nonlinear_arith)
            requires
                cols == 0,
        ;
    }
}

/// Where the mean of channel `ch` over the square is exact, the squared
/// deviation from it is at most the squared deviation from any other value.
proof fn lemma_channel_mean_minimizes(d: Disk, img: Raster, ch: int, c: int) -> (m: int)
    requires
        d.width > 0,
        d.square_sum(channel_of(img, ch)) % d.area() == 0,
    ensures
        m == d.square_sum(channel_of(img, ch)) / d.area(),
        0 <= m <= 255,
        d.square_sum(sq_dev(channel_of(img, ch), m)) <= d.square_sum(sq_dev(channel_of(img, ch), c)),
{
    let v = channel_of(img, ch);
    let n = d.area();
    let total = d.square_sum(v);
    let w = d.width as nat;
    assert(n > 0 && n == w * w) by (nonlinear_arith)
        requires
            n == d.width * d.width,
            d.width > 0,
            w == d.width,
    ;
    assert forall|a: int, b: int| 0 <= #[trigger] v(a, b) <= 255 by {}
    lemma_rect_bound(v, 255, d.left as int, d.top as int, w, w);
    let m = total / n;
    vstd::arithmetic::div_mod::lemma_fundamental_div_mod(total, n);
    assert(total == n * m);
    assert(0 <= m <= 255) by (nonlinear_arith)
        requires
            total == n * m,
            0 <= total <= 255 * n,
            n > 0,
    ;
    lemma_rect_expand(v, m, c, d.left as int, d.top as int, w, w);
    let lc = rect_sum(sq_dev(v, c), d.left as int, d.top as int, w, w);
    let lm = rect_sum(sq_dev(v, m), d.left as int, d.top as int, w, w);
    assert(lm <= lc) by (nonlinear_arith)
        requires
            lc == lm + 2 * (m - c) * (total - (w * w) * m) + (w * w) * ((m - c) * (m - c)),
            total == n * m,
            n == w * w,
    ;
    m
}

/// Colouring a disk with the mean of its square gives the least squared
/// error of all colours, wherever that mean is exact in every channel (the
/// floored mean can lose to a neighbouring colour otherwise).
pub proof fn lemma_mean_minimizes_error(d: Disk, img: Raster, c: Rgb)
    requires
        d.width > 0,
        d.square_sum(channel_of(img, 0)) % d.area() == 0,
        d.square_sum(channel_of(img, 1)) % d.area() == 0,
        d.square_sum(channel_of(img, 2)) % d.area() == 0,
    ensures
        d.square_sum(error_of(img, d.mean_color(img))) <= d.square_sum(error_of(img, c)),
{
    let mean = d.mean_color(img);
    let m0 = lemma_channel_mean_minimizes(d, img, 0, c.r as int);
    let m1 = lemma_channel_mean_minimizes(d, img, 1, c.g as int);
    let m2 = lemma_channel_mean_minimizes(d, img, 2, c.b as int);
    assert(mean.r == m0 && mean.g == m1 && mean.b == m2);
    let w = d.width as nat;
    let l = d.left as int;
    let t = d.top as int;
    let v0 = channel_of(img, 0);
    let v1 = channel_of(img, 1);
    let v2 = channel_of(img, 2);
    assert forall|a: int, b: int| #[trigger] error_of(img, mean)(a, b) == sq_dev(v0, m0)(a, b) + sq_dev(v1, m1)(
        a,
        b,
    ) + sq_dev(v2, m2)(a, b) by {}
    assert forall|a: int, b: int| #[trigger] error_of(img, c)(a, b) == sq_dev(v0, c.r as int)(a, b) + sq_dev(
        v1,
        c.g as int,
    )(a, b) + sq_dev(v2, c.b as int)(a, b) by {}
    lemma_rect_sum3(error_of(img, mean), sq_dev(v0, m0), sq_dev(v1, m1), sq_dev(v2, m2), l, t, w, w);
    lemma_rect_sum3(
        error_of(img, c),
        sq_dev(v0, c.r as int),
        sq_dev(v1, c.g as int),
        sq_dev(v2, c.b as int),
        l,
        t,
        w,
        w,
    );
}

proof fn lemma_error_sum_bound(d: Disk, img: Raster, c: Rgb)
    requires
        d.width <= MAX_SIDE,
    ensures
        0 <= d.square_sum(error_of(img, c)) <= u64::MAX,
{
    let f = error_of(img, c);
    assert forall|a: int, b: int| 0 <= #[trigger] f(a, b) <= 195075 by {
        let p = img.at(a, b);
        assert(0 <= sq_diff(p.r as int, c.r as int) <= 65025) by (nonlinear_arith)
            requires
                -255 <= p.r - c.r <= 255,
        ;
        assert(0 <= sq_diff(p.g as int, c.g as int) <= 65025) by (nonlinear_arith)
            requires
                -255 <= p.g - c.g <= 255,
        ;
        assert(0 <= sq_diff(p.b as int, c.b as int) <= 65025) by (nonlinear_arith)
            requires
                -255 <= p.b - c.b <= 255,
        ;
    }
    let w = d.width as nat;
    lemma_rect_bound(f, 195075, d.left as int, d.top as int, w, w);
    assert(195075 * (w * w) <= u64::MAX) by (nonlinear_arith)
        requires
            w <= MAX_SIDE,
    ;
}

/// The cost of a disk coloured with the mean of its square is at most its
/// cost under any other colour, wherever that mean is exact in every channel
/// (the floored mean can lose to a neighbouring colour otherwise).
pub proof fn lemma_mean_minimizes_cost(d: Disk, img: Raster, c: Rgb)
    requires
        0 < d.width <= MAX_SIDE,
        d.square_sum(channel_of(img, 0)) % d.area() == 0,
        d.square_sum(channel_of(img, 1)) % d.area() == 0,
        d.square_sum(channel_of(img, 2)) % d.area() == 0,
    ensures
        colored(d, d.mean_color(img)).spec_cost(img).spec_le(colored(d, c).spec_cost(img)),
{
    let mean = d.mean_color(img);
    lemma_mean_minimizes_error(d, img, c);
    lemma_error_sum_bound(d, img, mean);
    lemma_error_sum_bound(d, img, c);
    let x = colored(d, mean).spec_cost(img);
    let y = colored(d, c).spec_cost(img);
    assert(x.num == d.square_sum(error_of(img, mean)));
    assert(y.num == d.square_sum(error_of(img, c)));
    assert(x.den == y.den);
    let (xn, yn, dn) = (x.num as int, y.num as int, x.den as int);
    assert(xn * dn <= yn * dn) by (nonlinear_arith)
        requires
            xn <= yn,
            dn >= 0,
    ;
}

} // verus!
