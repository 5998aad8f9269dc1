use vstd::prelude::*;

use crate::calc::{clamp, swap, CMID};

verus! {

/// The rendering target: a color buffer and a depth buffer of `width * height`
/// pixels each, row-major with the origin at the top left, together with the
/// texture that textured fills sample and the current drawing state.
///
/// The depth buffer holds depth keys: larger keys are nearer the eye. A fill
/// stores the key of every fragment that passes the depth test.
pub struct Device {
    pub width: usize,
    pub height: usize,
    pub framebuf: Vec<u32>,
    pub zbuffer: Vec<u32>,
    pub texture: Vec<u32>,
    pub tex_width: i32,
    pub tex_height: i32,
    pub render_state: i32,
    pub background: u32,
    pub foreground: u32,
}

/// `old` with every pixel whose position lies in `pts` set to `c`; the pixel
/// at index `i` of a buffer `w` pixels wide stands at `(i % w, i / w)`.
pub open spec fn paint(old: Seq<u32>, w: int, pts: Set<(int, int)>, c: u32) -> Seq<u32> {
    Seq::new(old.len(), |i: int| if pts.contains((i % w, i / w)) { c } else { old[i] })
}

/// The pixels of column `x` from row `a` to row `b`, both ends included.
pub open spec fn column_points(x: int, a: int, b: int) -> Set<(int, int)> {
    Set::new(|p: (int, int)| p.0 == x && ((a <= p.1 <= b) || (b <= p.1 <= a)))
}

/// The pixels of row `y` from column `a` to column `b`, both ends included.
pub open spec fn row_points(y: int, a: int, b: int) -> Set<(int, int)> {
    Set::new(|p: (int, int)| p.1 == y && ((a <= p.0 <= b) || (b <= p.0 <= a)))
}

/// How far the minor coordinate of a walk has moved, in steps, after `k`
/// steps along the major axis of a line whose extents are `major` and
/// `minor`: `floor(k * minor / major)`.
pub open spec fn walk_offset(k: int, major: int, minor: int) -> int {
    (k * minor) / major
}

/// The pixels of the walk along x from `(ax, ay)` to column `bx` of a line
/// with extents `dx` along x and `dy <= dx` along y, whose rows move by
/// `step`. Column `ax + k` holds row `ay + step * walk_offset(k, dx, dy)`
/// and, on every column but the last, also the row of the next column.
pub open spec fn x_walk(ax: int, ay: int, bx: int, dx: int, dy: int, step: int) -> Set<(int, int)> {
    Set::new(
        |p: (int, int)|
            ax <= p.0 <= bx && (p.1 == ay + step * walk_offset(p.0 - ax, dx, dy) || (p.0 < bx
                && p.1 == ay + step * walk_offset(p.0 - ax + 1, dx, dy))),
    )
}

/// The walk of `x_walk` with the roles of the axes exchanged: row `ay + k`
/// holds column `ax + step * walk_offset(k, dy, dx)`.
pub open spec fn y_walk(ax: int, ay: int, by: int, dx: int, dy: int, step: int) -> Set<(int, int)> {
    Set::new(
        |p: (int, int)|
            ay <= p.1 <= by && (p.0 == ax + step * walk_offset(p.1 - ay, dy, dx) || (p.1 < by
                && p.0 == ax + step * walk_offset(p.1 - ay + 1, dy, dx))),
    )
}

pub open spec fn abs_diff(a: int, b: int) -> int {
    if a <= b {
        b - a
    } else {
        a - b
    }
}

pub open spec fn toward(from: int, to: int) -> int {
    if to >= from {
        1
    } else {
        -1
    }
}

/// The pixels that a line from `(x1, y1)` to `(x2, y2)` sets. A vertical or
/// horizontal line covers its whole segment. Any other line is walked along
/// its longer axis, from the end with the smaller coordinate on that axis,
/// and the far end is always included.
pub open spec fn line_points(x1: int, y1: int, x2: int, y2: int) -> Set<(int, int)> {
    let dx = abs_diff(x1, x2);
    let dy = abs_diff(y1, y2);
    if x1 == x2 && y1 == y2 {
        set![(x1, y1)]
    } else if x1 == x2 {
        column_points(x1, y1, y2)
    } else if y1 == y2 {
        row_points(y1, x1, x2)
    } else if dx >= dy {
        if x2 < x1 {
            x_walk(x2, y2, x1, dx, dy, toward(y2, y1)).insert((x1, y1))
        } else {
            x_walk(x1, y1, x2, dx, dy, toward(y1, y2)).insert((x2, y2))
        }
    } else {
        if y2 < y1 {
            y_walk(x2, y2, y1, dx, dy, toward(x2, x1)).insert((x1, y1))
        } else {
            y_walk(x1, y1, y2, dx, dy, toward(x1, x2)).insert((x2, y2))
        }
    }
}

/// The gray level of row `y` in the cleared gradient: 230 on the top row,
/// falling linearly to 0 on the bottom row.
pub open spec fn gradient_level(height: int, y: int) -> int {
    if height <= 1 {
        230
    } else {
        (height - 1 - y) * 230 / (height - 1)
    }
}

/// The color of row `y` after `clear(mode)`: the background color in mode 0,
/// otherwise the gray of the gradient.
pub open spec fn clear_color(mode: i32, background: u32, height: int, y: int) -> u32 {
    if mode == 0 {
        background
    } else {
        let g = gradient_level(height, y);
        (g * 65536 + g * 256 + g) as u32
    }
}

/// One pixel of a scanline as the shading stage hands it over: its depth key
/// (larger is nearer) and its packed color.
#[derive(Clone, Copy, Debug, PartialEq, Eq, Structural)]
pub struct Fragment {
    pub depth: u32,
    pub color: u32,
}

/// Whether the scanline of `frags` starting at `(x, y)` covers index `i` of a
/// buffer `w` pixels wide and its fragment there passes the depth test
/// against the stored key `z[i]` (a key equal to the stored one passes).
pub open spec fn scan_hit(z: Seq<u32>, w: int, x: int, y: int, frags: Seq<Fragment>, i: int) -> bool {
    &&& i / w == y
    &&& 0 <= i % w - x < frags.len()
    &&& frags[i % w - x].depth >= z[i]
}

/// The color buffer after drawing the scanline `frags` from `(x, y)`.
pub open spec fn scan_frame(
    fb: Seq<u32>,
    z: Seq<u32>,
    w: int,
    x: int,
    y: int,
    frags: Seq<Fragment>,
) -> Seq<u32> {
    Seq::new(
        fb.len(),
        |i: int|
            if scan_hit(z, w, x, y, frags, i) {
                frags[i % w - x].color
            } else {
                fb[i]
            },
    )
}

/// The depth buffer after drawing the scanline `frags` from `(x, y)`.
pub open spec fn scan_depth(z: Seq<u32>, w: int, x: int, y: int, frags: Seq<Fragment>) -> Seq<u32> {
    Seq::new(
        z.len(),
        |i: int|
            if scan_hit(z, w, x, y, frags, i) {
                frags[i % w - x].depth
            } else {
                z[i]
            },
    )
}

/// A line drawn from either end sets the same pixels.
pub proof fn lemma_line_symmetric(x1: int, y1: int, x2: int, y2: int)
    ensures
        line_points(x1, y1, x2, y2) == line_points(x2, y2, x1, y1),
{
    assert(column_points(x1, y1, y2) =~= column_points(x1, y2, y1));
    assert(row_points(y1, x1, x2) =~= row_points(y1, x2, x1));
}

/// A line covers both of its ends.
pub proof fn lemma_line_ends(x1: int, y1: int, x2: int, y2: int)
    ensures
        line_points(x1, y1, x2, y2).contains((x1, y1)),
        line_points(x1, y1, x2, y2).contains((x2, y2)),
{
    let dx = abs_diff(x1, x2);
    let dy = abs_diff(y1, y2);
    assert(0 * dx == 0 && 0 * dy == 0);
    if dx > 0 && dy > 0 {
        assert(walk_offset(0, dx, dy) == 0);
        assert(walk_offset(0, dy, dx) == 0);
    }
}

/// The offset of a walk stays within the minor extent: `0 <= floor(k *
/// minor / major) <= minor` for `0 <= k <= major`.
proof fn lemma_walk_offset_bounds(k: int, major: int, minor: int)
    requires
        0 <= k <= major,
        0 <= minor <= major,
        0 < major,
    ensures
        0 <= walk_offset(k, major, minor) <= minor,
{
    assert(0 <= k * minor) by (nonlinear_arith)
        requires
            0 <= k,
            0 <= minor,
    ;
    vstd::arithmetic::div_mod::lemma_div_pos_is_pos(k * minor, major);
    vstd::arithmetic::mul::lemma_mul_inequality(k, major, minor);
    vstd::arithmetic::div_mod::lemma_div_is_ordered(k * minor, major * minor, major);
    vstd::arithmetic::div_mod::lemma_fundamental_div_mod_converse(major * minor, major, minor, 0);
    assert(minor * major == major * minor) by (nonlinear_arith);
}

/// Every pixel of a line lies in the box spanned by its two ends.
pub proof fn lemma_line_in_box(x1: int, y1: int, x2: int, y2: int)
    ensures
        forall|p: (int, int)|
            #[trigger] line_points(x1, y1, x2, y2).contains(p) ==> (x1 <= p.0 <= x2 || x2 <= p.0
                <= x1) && (y1 <= p.1 <= y2 || y2 <= p.1 <= y1),
{
    let dx = abs_diff(x1, x2);
    let dy = abs_diff(y1, y2);
    assert forall|p: (int, int)| #[trigger] line_points(x1, y1, x2, y2).contains(p) implies (x1
        <= p.0 <= x2 || x2 <= p.0 <= x1) && (y1 <= p.1 <= y2 || y2 <= p.1 <= y1) by {
        if x1 != x2 && y1 != y2 {
            if dx >= dy {
                let ax = if x2 < x1 {
                    x2
                } else {
                    x1
                };
                let k = p.0 - ax;
                if 0 <= k <= dx {
                    lemma_walk_offset_bounds(k, dx, dy);
                }
                if 0 <= k < dx {
                    lemma_walk_offset_bounds(k + 1, dx, dy);
                }
            } else {
                let ay = if y2 < y1 {
                    y2
                } else {
                    y1
                };
                let k = p.1 - ay;
                if 0 <= k <= dy {
                    lemma_walk_offset_bounds(k, dy, dx);
                }
                if 0 <= k < dy {
                    lemma_walk_offset_bounds(k + 1, dy, dx);
                }
            }
        }
    }
}

/// One step of a walk: with `q` and `r` the quotient and remainder of `k *
/// minor` by `major`, those of `(k + 1) * minor` are `q + 1` and `r + minor -
/// major` where `r + minor` reaches `major`, and `q` and `r + minor` otherwise.
proof fn lemma_walk_advance(k: int, major: int, minor: int)
    requires
        0 <= k,
        0 < minor <= major,
    ensures
        0 <= (k * minor) % major < major,
        (k * minor) % major + minor >= major ==> walk_offset(k + 1, major, minor) == walk_offset(
            k,
            major,
            minor,
        ) + 1 && ((k + 1) * minor) % major == (k * minor) % major + minor - major,
        (k * minor) % major + minor < major ==> walk_offset(k + 1, major, minor) == walk_offset(
            k,
            major,
            minor,
        ) && ((k + 1) * minor) % major == (k * minor) % major + minor,
{
    let n = k * minor;
    let q = n / major;
    let r = n % major;
    vstd::arithmetic::div_mod::lemma_fundamental_div_mod(n, major);
    vstd::arithmetic::div_mod::lemma_mod_bound(n, major);
    assert((k + 1) * minor == n + minor) by (nonlinear_arith)
        requires
            n == k * minor,
    ;
    assert(major * q == q * major) by (nonlinear_arith);
    assert(major * (q + 1) == (q + 1) * major) by (nonlinear_arith);
    if r + minor >= major {
        assert(n + minor == (q + 1) * major + (r + minor - major)) by (nonlinear_arith)
            requires
                n == major * q + r,
        ;
        vstd::arithmetic::div_mod::lemma_fundamental_div_mod_converse(
            n + minor,
            major,
            q + 1,
            r + minor - major,
        );
    } else {
        vstd::arithmetic::div_mod::lemma_fundamental_div_mod_converse(n + minor, major, q, r + minor);
    }
}

/// Drawing the same scanline a second time changes neither buffer: every
/// pixel it won keeps a key equal to its own, so it wins again with the same
/// color, and every pixel it lost it loses again.
pub proof fn lemma_scanline_idempotent(
    fb: Seq<u32>,
    z: Seq<u32>,
    w: int,
    x: int,
    y: int,
    frags: Seq<Fragment>,
)
    requires
        fb.len() == z.len(),
    ensures
        scan_frame(scan_frame(fb, z, w, x, y, frags), scan_depth(z, w, x, y, frags), w, x, y, frags)
            == scan_frame(fb, z, w, x, y, frags),
        scan_depth(scan_depth(z, w, x, y, frags), w, x, y, frags) == scan_depth(z, w, x, y, frags),
{
    let fb1 = scan_frame(fb, z, w, x, y, frags);
    let z1 = scan_depth(z, w, x, y, frags);
    assert(scan_frame(fb1, z1, w, x, y, frags) =~= fb1);
    assert(scan_depth(z1, w, x, y, frags) =~= z1);
}

/// The buffers after drawing the scanlines `scans` in order; each scanline
/// is its start column, its row and its fragments.
pub open spec fn draw_scans(
    fb: Seq<u32>,
    z: Seq<u32>,
    w: int,
    scans: Seq<(int, int, Seq<Fragment>)>,
) -> (Seq<u32>, Seq<u32>)
    decreases scans.len(),
{
    if scans.len() == 0 {
        (fb, z)
    } else {
        let prev = draw_scans(fb, z, w, scans.drop_last());
        let s = scans.last();
        (scan_frame(prev.0, prev.1, w, s.0, s.1, s.2), scan_depth(prev.1, w, s.0, s.1, s.2))
    }
}

/// No two of the scanlines lie on one row, as for the rows of one triangle.
pub open spec fn rows_distinct(scans: Seq<(int, int, Seq<Fragment>)>) -> bool {
    forall|a: int, b: int| 0 <= a < b < scans.len() ==> scans[a].1 != scans[b].1
}

proof fn lemma_draw_scans_len(fb: Seq<u32>, z: Seq<u32>, w: int, scans: Seq<(int, int, Seq<Fragment>)>)
    ensures
        draw_scans(fb, z, w, scans).0.len() == fb.len(),
        draw_scans(fb, z, w, scans).1.len() == z.len(),
    decreases scans.len(),
{
    if scans.len() > 0 {
        lemma_draw_scans_len(fb, z, w, scans.drop_last());
    }
}

/// With rows pairwise distinct, a pixel ends as the one scanline on its row
/// leaves it, or unchanged where no scanline lies on its row.
proof fn lemma_draw_scans_at(
    fb: Seq<u32>,
    z: Seq<u32>,
    w: int,
    scans: Seq<(int, int, Seq<Fragment>)>,
    i: int,
)
    requires
        fb.len() == z.len(),
        0 <= i < fb.len(),
        rows_distinct(scans),
    ensures
        forall|j: int|
            0 <= j < scans.len() && #[trigger] scans[j].1 == i / w ==> draw_scans(fb, z, w, scans).0[i]
                == scan_frame(fb, z, w, scans[j].0, scans[j].1, scans[j].2)[i] && draw_scans(
                fb,
                z,
                w,
                scans,
            ).1[i] == scan_depth(z, w, scans[j].0, scans[j].1, scans[j].2)[i],
        (forall|j: int| 0 <= j < scans.len() ==> #[trigger] scans[j].1 != i / w) ==> draw_scans(
            fb,
            z,
            w,
            scans,
        ).0[i] == fb[i] && draw_scans(fb, z, w, scans).1[i] == z[i],
    decreases scans.len(),
{
    if scans.len() > 0 {
        let pre = scans.drop_last();
        assert(rows_distinct(pre));
        lemma_draw_scans_at(fb, z, w, pre, i);
        lemma_draw_scans_len(fb, z, w, pre);
        let last = scans.len() - 1;
        assert(scans.last() == scans[last]);
        assert forall|j: int| 0 <= j < pre.len() implies #[trigger] pre[j] == scans[j] by {}
        let prev = draw_scans(fb, z, w, pre);
        let s = scans[last];
        if s.1 == i / w {
            assert forall|j: int| 0 <= j < pre.len() implies #[trigger] pre[j].1 != i / w by {
                assert(scans[j].1 != scans[last].1);
            }
            assert(prev.0[i] == fb[i] && prev.1[i] == z[i]);
            assert forall|j: int|
                0 <= j < scans.len() && #[trigger] scans[j].1 == i / w implies j == last by {
                if j < last {
                    assert(scans[j].1 != scans[last].1);
                }
            }
        } else {
            assert(!scan_hit(prev.1, w, s.0, s.1, s.2, i));
            assert forall|j: int|
                0 <= j < scans.len() && #[trigger] scans[j].1 == i / w implies j < last
                && pre[j].1 == i / w by {}
        }
    }
}

/// Drawing the scanlines of one triangle a second time, after the first,
/// changes neither the color buffer nor the depth buffer.
pub proof fn lemma_redraw_idempotent(
    fb: Seq<u32>,
    z: Seq<u32>,
    w: int,
    scans: Seq<(int, int, Seq<Fragment>)>,
)
    requires
        fb.len() == z.len(),
        rows_distinct(scans),
    ensures
        draw_scans(draw_scans(fb, z, w, scans).0, draw_scans(fb, z, w, scans).1, w, scans)
            == draw_scans(fb, z, w, scans),
{
    let r = draw_scans(fb, z, w, scans);
    let r2 = draw_scans(r.0, r.1, w, scans);
    lemma_draw_scans_len(fb, z, w, scans);
    lemma_draw_scans_len(r.0, r.1, w, scans);
    assert forall|i: int|
        #![trigger r2.0[i]]
        #![trigger r2.1[i]]
        0 <= i < fb.len() implies r2.0[i] == r.0[i] && r2.1[i] == r.1[i] by {
        lemma_draw_scans_at(fb, z, w, scans, i);
        lemma_draw_scans_at(r.0, r.1, w, scans, i);
        if exists|j: int| 0 <= j < scans.len() && #[trigger] scans[j].1 == i / w {
            let j = choose|j: int| 0 <= j < scans.len() && #[trigger] scans[j].1 == i / w;
            assert(scans[j].1 == i / w);
        }
    }
    assert(r2.0 =~= r.0);
    assert(r2.1 =~= r.1);
}

/// The texel at column `i`, row `j` of the built-in checkerboard texture:
/// squares of 32 x 32 texels, white and sky blue in turn.
pub open spec fn checker_color(i: int, j: int) -> u32 {
    if (i / 32 + j / 32) % 2 == 1 {
        0xffffff
    } else {
        0x3fbcef
    }
}

/// Whether `j` lies in the half-open range `r`.
pub open spec fn in_range(r: (i32, i32), j: int) -> bool {
    r.0 <= j < r.1
}

/// For an index `i` of a `w * h` buffer, `(i % w, i / w)` names the pixel at
/// `(x, y)` exactly when the pixel lies in the buffer and `i` is `y * w + x`.
proof fn lemma_pixel_index(w: int, h: int, x: int, y: int, i: int)
    requires
        w > 0,
        h > 0,
        0 <= i < w * h,
    ensures
        (i % w == x && i / w == y) <==> (0 <= x < w && 0 <= y < h && i == y * w + x),
        0 <= i % w < w,
        0 <= i / w < h,
{
    vstd::arithmetic::div_mod::lemma_fundamental_div_mod(i, w);
    vstd::arithmetic::div_mod::lemma_mod_bound(i, w);
    vstd::arithmetic::div_mod::lemma_div_pos_is_pos(i, w);
    if i / w >= h {
        vstd::arithmetic::mul::lemma_mul_inequality(h, i / w, w);
        assert(w * (i / w) == (i / w) * w) by (nonlinear_arith);
        assert(h * w == w * h) by (nonlinear_arith);
    }
    if 0 <= x < w && 0 <= y < h && i == y * w + x {
        vstd::arithmetic::div_mod::lemma_fundamental_div_mod_converse(i, w, y, x);
    }
    if i % w == x && i / w == y {
        assert(w * y == y * w) by (nonlinear_arith);
    }
}

/// A pixel inside a `w * h` buffer has its index inside the buffer.
proof fn lemma_index_in_bounds(w: int, h: int, x: int, y: int)
    requires
        0 <= x < w,
        0 <= y < h,
    ensures
        0 <= y * w + x < w * h,
{
    assert(y * w + x < w * h) by (nonlinear_arith)
        requires
            0 <= x < w,
            0 <= y < h,
    ;
    assert(0 <= y * w) by (nonlinear_arith)
        requires
            0 <= y,
            0 < w,
    ;
}

/// Painting `a` and then `b` in one color paints their union.
proof fn lemma_paint_union(s: Seq<u32>, w: int, a: Set<(int, int)>, b: Set<(int, int)>, c: u32)
    ensures
        paint(paint(s, w, a, c), w, b, c) == paint(s, w, a.union(b), c),
{
    assert(paint(paint(s, w, a, c), w, b, c) =~= paint(s, w, a.union(b), c));
}

impl Device {
    pub open spec fn wf(&self) -> bool {
        &&& self.width >= 1
        &&& self.height >= 1
        &&& self.width * self.height <= usize::MAX
        &&& self.framebuf@.len() == self.width * self.height
        &&& self.zbuffer@.len() == self.width * self.height
        &&& self.tex_width >= 1
        &&& self.tex_height >= 1
        &&& self.texture@.len() >= self.tex_width * self.tex_height
    }

    /// Everything but the color buffer is the same in `self` and `o`.
    pub open spec fn same_but_frame(&self, o: &Device) -> bool {
        &&& self.width == o.width
        &&& self.height == o.height
        &&& self.zbuffer@ == o.zbuffer@
        &&& self.texture@ == o.texture@
        &&& self.tex_width == o.tex_width
        &&& self.tex_height == o.tex_height
        &&& self.render_state == o.render_state
        &&& self.background == o.background
        &&& self.foreground == o.foreground
    }

    /// A device of `width * height` black pixels, an empty depth buffer, a
    /// black 2 x 2 texture and no render mode set.
    pub fn new(width: usize, height: usize) -> (d: Device)
        requires
            width >= 1,
            height >= 1,
            width * height <= usize::MAX,
        ensures
            d.wf(),
            d.width == width,
            d.height == height,
            forall|i: int| 0 <= i < width * height ==> d.framebuf@[i] == 0 && d.zbuffer@[i] == 0,
            d.tex_width == 2,
            d.tex_height == 2,
            forall|i: int| 0 <= i < 4 ==> d.texture@[i] == 0,
            d.render_state == 0,
            d.background == 0,
            d.foreground == 0,
    {
        let n = width * height;
        Device {
            width,
            height,
            framebuf: vec![0u32; n],
            zbuffer: vec![0u32; n],
            texture: vec![0u32; 4],
            tex_width: 2,
            tex_height: 2,
            render_state: 0,
            background: 0,
            foreground: 0,
        }
    }

    /// Sets the pixel at `(x, y)` to `color`; a position outside the buffer
    /// changes nothing.
    pub fn pixel(&mut self, x: usize, y: usize, color: u32)
        requires
            old(self).wf(),
        ensures
            final(self).wf(),
            final(self).same_but_frame(old(self)),
            final(self).framebuf@ == paint(
                old(self).framebuf@,
                old(self).width as int,
                set![(x as int, y as int)],
                color,
            ),
    {
        self.plot(x as i128, y as i128, color);
    }

    fn plot(&mut self, x: i128, y: i128, color: u32)
        requires
            old(self).wf(),
        ensures
            final(self).wf(),
            final(self).same_but_frame(old(self)),
            final(self).framebuf@ == paint(
                old(self).framebuf@,
                old(self).width as int,
                set![(x as int, y as int)],
                color,
            ),
    {
        let ghost w = self.width as int;
        let ghost h = self.height as int;
        if 0 <= x && x < self.width as i128 && 0 <= y && y < self.height as i128 {
            proof {
                lemma_index_in_bounds(w, h, x as int, y as int);
            }
            let idx = (y as usize) * self.width + (x as usize);
            self.framebuf.set(idx, color);
        }
        assert forall|i: int| 0 <= i < w * h implies #[trigger] self.framebuf@[i] == paint(
            old(self).framebuf@,
            w,
            set![(x as int, y as int)],
            color,
        )[i] by {
            lemma_pixel_index(w, h, x as int, y as int, i);
        }
        assert(self.framebuf@ =~= paint(old(self).framebuf@, w, set![(x as int, y as int)], color));
    }

    /// The color of row `y` after `clear(mode)`.
    fn row_color(&self, mode: i32, y: usize) -> (c: u32)
        requires
            self.height >= 1,
            y < self.height,
        ensures
            c == clear_color(mode, self.background, self.height as int, y as int),
    {
        if mode == 0 {
            self.background
        } else {
            let height = self.height;
            let level: u32 = if height <= 1 {
                230
            } else {
                let top = (height - 1) as u128;
                let num = ((height - 1 - y) as u128) * 230;
                assert(num / top <= 230) by (nonlinear_arith)
                    requires
                        num == ((height - 1 - y) as int) * 230,
                        top == height - 1,
                        top >= 1,
                        y >= 0,
                ;
                (num / top) as u32
            };
            assert(level <= 230);
            let c = (level << 16) | (level << 8) | level;
            assert(c == level * 65536 + level * 256 + level) by (bit_vector)
                requires
                    c == (level << 16) | (level << 8) | level,
                    level <= 230,
            ;
            c
        }
    }

    /// Fills the color buffer row by row with `clear_color` and empties the
    /// depth buffer.
    pub fn clear(&mut self, mode: i32)
        requires
            old(self).wf(),
        ensures
            final(self).wf(),
            final(self).width == old(self).width,
            final(self).height == old(self).height,
            final(self).texture@ == old(self).texture@,
            final(self).tex_width == old(self).tex_width,
            final(self).tex_height == old(self).tex_height,
            final(self).render_state == old(self).render_state,
            final(self).background == old(self).background,
            final(self).foreground == old(self).foreground,
            forall|i: int|
                0 <= i < final(self).framebuf@.len() ==> #[trigger] final(self).framebuf@[i]
                    == clear_color(
                    mode,
                    old(self).background,
                    old(self).height as int,
                    i / old(self).width as int,
                ),
            forall|i: int| 0 <= i < final(self).zbuffer@.len() ==> #[trigger] final(self).zbuffer@[i] == 0,
    {
        let width = self.width;
        let height = self.height;
        let n = width * height;
        let mut buf: Vec<u32> = Vec::with_capacity(n);
        let mut y: usize = 0;
        while y < height
            invariant
                0 <= y <= height,
                width >= 1,
                self.wf(),
                width == self.width,
                height == self.height,
                n == width * height,
                buf@.len() == y * width,
                forall|i: int|
                    0 <= i < buf@.len() ==> #[trigger] buf@[i] == clear_color(
                        mode,
                        self.background,
                        height as int,
                        i / width as int,
                    ),
            decreases height - y,
        {
            let cc = self.row_color(mode, y);
            let mut x: usize = 0;
            while x < width
                invariant
                    0 <= x <= width,
                    0 <= y < height,
                    width >= 1,
                    cc == clear_color(mode, self.background, height as int, y as int),
                    buf@.len() == y * width + x,
                    forall|i: int|
                        0 <= i < buf@.len() ==> #[trigger] buf@[i] == clear_color(
                            mode,
                            self.background,
                            height as int,
                            i / width as int,
                        ),
                decreases width - x,
            {
                proof {
                    vstd::arithmetic::div_mod::lemma_fundamental_div_mod_converse(
                        (y * width + x) as int,
                        width as int,
                        y as int,
                        x as int,
                    );
                }
                buf.push(cc);
                x += 1;
            }
            assert(y * width + width == (y + 1) * width) by (nonlinear_arith);
            y += 1;
        }
        assert(height * width == width * height) by (nonlinear_arith);
        self.framebuf = buf;
        self.zbuffer = vec![0u32; n];
    }

    /// Draws a line from `(x1, y1)` to `(x2, y2)` in `color`, both ends
    /// included, with integer steps only; pixels outside the buffer are
    /// skipped and the depth buffer is neither tested nor written.
    pub fn draw_line(&mut self, x1: usize, y1: usize, x2: usize, y2: usize, color: u32)
        requires
            old(self).wf(),
        ensures
            final(self).wf(),
            final(self).same_but_frame(old(self)),
            final(self).framebuf@ == paint(
                old(self).framebuf@,
                old(self).width as int,
                line_points(x1 as int, y1 as int, x2 as int, y2 as int),
                color,
            ),
    {
        if x1 == x2 && y1 == y2 {
            self.pixel(x1, y1, color);
        } else if x1 == x2 {
            self.draw_column(x1, y1, y2, color);
        } else if y1 == y2 {
            self.draw_row(y1, x1, x2, color);
        } else {
            let dx = if x1 < x2 {
                x2 - x1
            } else {
                x1 - x2
            };
            let dy = if y1 < y2 {
                y2 - y1
            } else {
                y1 - y2
            };
            let mut ax = x1;
            let mut ay = y1;
            let mut bx = x2;
            let mut by = y2;
            if dx >= dy {
                if x2 < x1 {
                    swap(&mut ax, &mut bx);
                    swap(&mut ay, &mut by);
                }
                self.walk_x(ax, ay, bx, by, dx, dy, color);
            } else {
                if y2 < y1 {
                    swap(&mut ax, &mut bx);
                    swap(&mut ay, &mut by);
                }
                self.walk_y(ax, ay, bx, by, dx, dy, color);
            }
        }
    }

    fn draw_column(&mut self, x: usize, a: usize, b: usize, color: u32)
        requires
            old(self).wf(),
        ensures
            final(self).wf(),
            final(self).same_but_frame(old(self)),
            final(self).framebuf@ == paint(
                old(self).framebuf@,
                old(self).width as int,
                column_points(x as int, a as int, b as int),
                color,
            ),
    {
        let ghost fb0 = self.framebuf@;
        let ghost w = self.width as int;
        let inc: i128 = if a < b {
            1
        } else {
            -1
        };
        let mut y: i128 = a as i128;
        let ghost mut done: Set<(int, int)> = Set::empty();
        assert(done =~= Set::new(
            |p: (int, int)|
                p.0 == x && (if a < b {
                    a <= p.1 < y
                } else {
                    y < p.1 <= a
                }),
        ));
        while y != b as i128
            invariant
                self.wf(),
                self.same_but_frame(old(self)),
                w == self.width,
                inc == (if a < b {
                    1int
                } else {
                    -1int
                }),
                a <= b ==> a <= y <= b,
                b < a ==> b <= y <= a,
                done == Set::new(
                    |p: (int, int)|
                        p.0 == x && (if a < b {
                            a <= p.1 < y
                        } else {
                            y < p.1 <= a
                        }),
                ),
                self.framebuf@ == paint(fb0, w, done, color),
            decreases (if a < b {
                b - y
            } else {
                y - b
            }),
        {
            self.plot(x as i128, y, color);
            proof {
                lemma_paint_union(fb0, w, done, set![(x as int, y as int)], color);
                done = done.union(set![(x as int, y as int)]);
            }
            y = y + inc;
            assert(done =~= Set::new(
                |p: (int, int)|
                    p.0 == x && (if a < b {
                        a <= p.1 < y
                    } else {
                        y < p.1 <= a
                    }),
            ));
        }
        self.plot(x as i128, b as i128, color);
        proof {
            lemma_paint_union(fb0, w, done, set![(x as int, b as int)], color);
        }
        assert(done.union(set![(x as int, b as int)]) =~= column_points(x as int, a as int, b as int));
    }

    fn draw_row(&mut self, y: usize, a: usize, b: usize, color: u32)
        requires
            old(self).wf(),
        ensures
            final(self).wf(),
            final(self).same_but_frame(old(self)),
            final(self).framebuf@ == paint(
                old(self).framebuf@,
                old(self).width as int,
                row_points(y as int, a as int, b as int),
                color,
            ),
    {
        let ghost fb0 = self.framebuf@;
        let ghost w = self.width as int;
        let inc: i128 = if a <= b {
            1
        } else {
            -1
        };
        let mut x: i128 = a as i128;
        let ghost mut done: Set<(int, int)> = Set::empty();
        assert(done =~= Set::new(
            |p: (int, int)|
                p.1 == y && (if a <= b {
                    a <= p.0 < x
                } else {
                    x < p.0 <= a
                }),
        ));
        while x != b as i128
            invariant
                self.wf(),
                self.same_but_frame(old(self)),
                w == self.width,
                inc == (if a <= b {
                    1int
                } else {
                    -1int
                }),
                a <= b ==> a <= x <= b,
                b < a ==> b <= x <= a,
                done == Set::new(
                    |p: (int, int)|
                        p.1 == y && (if a <= b {
                            a <= p.0 < x
                        } else {
                            x < p.0 <= a
                        }),
                ),
                self.framebuf@ == paint(fb0, w, done, color),
            decreases (if a <= b {
                b - x
            } else {
                x - b
            }),
        {
            self.plot(x, y as i128, color);
            proof {
                lemma_paint_union(fb0, w, done, set![(x as int, y as int)], color);
                done = done.union(set![(x as int, y as int)]);
            }
            x = x + inc;
            assert(done =~= Set::new(
                |p: (int, int)|
                    p.1 == y && (if a <= b {
                        a <= p.0 < x
                    } else {
                        x < p.0 <= a
                    }),
            ));
        }
        self.plot(b as i128, y as i128, color);
        proof {
            lemma_paint_union(fb0, w, done, set![(b as int, y as int)], color);
        }
        assert(done.union(set![(b as int, y as int)]) =~= row_points(y as int, a as int, b as int));
    }

    /// The walk along x of a line whose x extent `dx` is at least its y
    /// extent `dy`, from its left end `(ax, ay)` to its right end `(bx, by)`.
    fn walk_x(&mut self, ax: usize, ay: usize, bx: usize, by: usize, dx: usize, dy: usize, color: u32)
        requires
            old(self).wf(),
            ax < bx,
            dx == bx - ax,
            dy == abs_diff(ay as int, by as int),
            0 < dy <= dx,
        ensures
            final(self).wf(),
            final(self).same_but_frame(old(self)),
            final(self).framebuf@ == paint(
                old(self).framebuf@,
                old(self).width as int,
                x_walk(
                    ax as int,
                    ay as int,
                    bx as int,
                    dx as int,
                    dy as int,
                    toward(ay as int, by as int),
                ).insert((bx as int, by as int)),
                color,
            ),
    {
        let ghost fb0 = self.framebuf@;
        let ghost w = self.width as int;
        let step: i128 = if by >= ay {
            1
        } else {
            -1
        };
        let mut x: i128 = ax as i128;
        let mut y: i128 = ay as i128;
        let mut rem: i128 = 0;
        let ghost mut done: Set<(int, int)> = Set::empty();
        assert(0 * dy == 0);
        assert(done =~= Set::new(
            |p: (int, int)|
                ax <= p.0 < x && (p.1 == ay + step * walk_offset(p.0 - ax, dx as int, dy as int) || (
                p.0 < bx && p.1 == ay + step * walk_offset(p.0 - ax + 1, dx as int, dy as int))),
        ));
        while x <= bx as i128
            invariant
                self.wf(),
                self.same_but_frame(old(self)),
                w == self.width,
                step == toward(ay as int, by as int),
                0 < dy <= dx,
                dx == bx - ax,
                ax <= x <= bx + 1,
                x <= bx ==> y == ay + step * walk_offset(x - ax, dx as int, dy as int) && rem == ((x
                    - ax) * dy) % (dx as int),
                -(x - ax) <= y - ay <= x - ax,
                0 <= rem < dx,
                done == Set::new(
                    |p: (int, int)|
                        ax <= p.0 < x && (p.1 == ay + step * walk_offset(p.0 - ax, dx as int, dy as int)
                            || (p.0 < bx && p.1 == ay + step * walk_offset(
                            p.0 - ax + 1,
                            dx as int,
                            dy as int,
                        ))),
                ),
                self.framebuf@ == paint(fb0, w, done, color),
            decreases bx + 1 - x,
        {
            let ghost k = x - ax;
            self.plot(x, y, color);
            proof {
                lemma_paint_union(fb0, w, done, set![(x as int, y as int)], color);
                done = done.union(set![(x as int, y as int)]);
            }
            if x < bx as i128 {
                proof {
                    lemma_walk_advance(k, dx as int, dy as int);
                    assert(step * (walk_offset(k, dx as int, dy as int) + 1) == step * walk_offset(
                        k,
                        dx as int,
                        dy as int,
                    ) + step) by (nonlinear_arith);
                    assert((k + 1) * dy == (x + 1 - ax) * dy);
                }
                rem = rem + dy as i128;
                if rem >= dx as i128 {
                    rem = rem - dx as i128;
                    y = y + step;
                    self.plot(x, y, color);
                    proof {
                        lemma_paint_union(fb0, w, done, set![(x as int, y as int)], color);
                        done = done.union(set![(x as int, y as int)]);
                    }
                }
            }
            x = x + 1;
            assert(done =~= Set::new(
                |p: (int, int)|
                    ax <= p.0 < x && (p.1 == ay + step * walk_offset(p.0 - ax, dx as int, dy as int)
                        || (p.0 < bx && p.1 == ay + step * walk_offset(
                        p.0 - ax + 1,
                        dx as int,
                        dy as int,
                    ))),
            ));
        }
        let ghost full = x_walk(ax as int, ay as int, bx as int, dx as int, dy as int, step as int);
        assert(done =~= full);
        self.plot(bx as i128, by as i128, color);
        proof {
            lemma_paint_union(fb0, w, done, set![(bx as int, by as int)], color);
        }
        assert(done.union(set![(bx as int, by as int)]) =~= full.insert((bx as int, by as int)));
    }

    /// The walk along x of a line whose x extent `dx` exceeds its y extent
    /// `dy`, from its upper end `(ay, ax)` to its lower end `(by, bx)`.
    fn walk_y(&mut self, ax: usize, ay: usize, bx: usize, by: usize, dx: usize, dy: usize, color: u32)
        requires
            old(self).wf(),
            ay < by,
            dy == by - ay,
            dx == abs_diff(ax as int, bx as int),
            0 < dx < dy,
        ensures
            final(self).wf(),
            final(self).same_but_frame(old(self)),
            final(self).framebuf@ == paint(
                old(self).framebuf@,
                old(self).width as int,
                y_walk(
                    ax as int,
                    ay as int,
                    by as int,
                    dx as int,
                    dy as int,
                    toward(ax as int, bx as int),
                ).insert((bx as int, by as int)),
                color,
            ),
    {
        let ghost fb0 = self.framebuf@;
        let ghost w = self.width as int;
        let step: i128 = if bx >= ax {
            1
        } else {
            -1
        };
        let mut y: i128 = ay as i128;
        let mut x: i128 = ax as i128;
        let mut rem: i128 = 0;
        let ghost mut done: Set<(int, int)> = Set::empty();
        assert(0 * dx == 0);
        assert(done =~= Set::new(
            |p: (int, int)|
                ay <= p.1 < y && (p.0 == ax + step * walk_offset(p.1 - ay, dy as int, dx as int) || (
                p.1 < by && p.0 == ax + step * walk_offset(p.1 - ay + 1, dy as int, dx as int))),
        ));
        while y <= by as i128
            invariant
                self.wf(),
                self.same_but_frame(old(self)),
                w == self.width,
                step == toward(ax as int, bx as int),
                0 < dx < dy,
                dy == by - ay,
                ay <= y <= by + 1,
                y <= by ==> x == ax + step * walk_offset(y - ay, dy as int, dx as int) && rem == ((y
                    - ay) * dx) % (dy as int),
                -(y - ay) <= x - ax <= y - ay,
                0 <= rem < dy,
                done == Set::new(
                    |p: (int, int)|
                        ay <= p.1 < y && (p.0 == ax + step * walk_offset(p.1 - ay, dy as int, dx as int)
                            || (p.1 < by && p.0 == ax + step * walk_offset(
                            p.1 - ay + 1,
                            dy as int,
                            dx as int,
                        ))),
                ),
                self.framebuf@ == paint(fb0, w, done, color),
            decreases by + 1 - y,
        {
            let ghost k = y - ay;
            self.plot(x, y, color);
            proof {
                lemma_paint_union(fb0, w, done, set![(x as int, y as int)], color);
                done = done.union(set![(x as int, y as int)]);
            }
            if y < by as i128 {
                proof {
                    lemma_walk_advance(k, dy as int, dx as int);
                    assert(step * (walk_offset(k, dy as int, dx as int) + 1) == step * walk_offset(
                        k,
                        dy as int,
                        dx as int,
                    ) + step) by (nonlinear_arith);
                    assert((k + 1) * dx == (y + 1 - ay) * dx);
                }
                rem = rem + dx as i128;
                if rem >= dy as i128 {
                    rem = rem - dy as i128;
                    x = x + step;
                    self.plot(x, y, color);
                    proof {
                        lemma_paint_union(fb0, w, done, set![(x as int, y as int)], color);
                        done = done.union(set![(x as int, y as int)]);
                    }
                }
            }
            y = y + 1;
            assert(done =~= Set::new(
                |p: (int, int)|
                    ay <= p.1 < y && (p.0 == ax + step * walk_offset(p.1 - ay, dy as int, dx as int)
                        || (p.1 < by && p.0 == ax + step * walk_offset(
                        p.1 - ay + 1,
                        dy as int,
                        dx as int,
                    ))),
            ));
        }
        let ghost full = y_walk(ax as int, ay as int, by as int, dx as int, dy as int, step as int);
        assert(done =~= full);
        self.plot(bx as i128, by as i128, color);
        proof {
            lemma_paint_union(fb0, w, done, set![(bx as int, by as int)], color);
        }
        assert(done.union(set![(bx as int, by as int)]) =~= full.insert((bx as int, by as int)));
    }

    /// Draws one scanline: `frags[k]` is the fragment for pixel `(x + k, y)`.
    /// A fragment inside the buffer whose depth key is at least the stored one
    /// writes its key to the depth buffer and its color to the color buffer;
    /// the others, and those outside the buffer, change nothing.
    pub fn draw_scanline(&mut self, x: i32, y: i32, frags: &Vec<Fragment>)
        requires
            old(self).wf(),
        ensures
            final(self).wf(),
            final(self).width == old(self).width,
            final(self).height == old(self).height,
            final(self).texture@ == old(self).texture@,
            final(self).tex_width == old(self).tex_width,
            final(self).tex_height == old(self).tex_height,
            final(self).render_state == old(self).render_state,
            final(self).background == old(self).background,
            final(self).foreground == old(self).foreground,
            final(self).framebuf@ == scan_frame(
                old(self).framebuf@,
                old(self).zbuffer@,
                old(self).width as int,
                x as int,
                y as int,
                frags@,
            ),
            final(self).zbuffer@ == scan_depth(
                old(self).zbuffer@,
                old(self).width as int,
                x as int,
                y as int,
                frags@,
            ),
    {
        let ghost fb0 = self.framebuf@;
        let ghost z0 = self.zbuffer@;
        let ghost w = self.width as int;
        let ghost h = self.height as int;
        let n = frags.len();
        let mut k: usize = 0;
        assert(fb0 =~= scan_frame(fb0, z0, w, x as int, y as int, frags@.take(0)));
        assert(z0 =~= scan_depth(z0, w, x as int, y as int, frags@.take(0)));
        while k < n && (x as i128 + k as i128) < self.width as i128
            invariant
                self.wf(),
                w == self.width,
                h == self.height,
                fb0.len() == w * h,
                z0.len() == w * h,
                self.texture@ == old(self).texture@,
                self.tex_width == old(self).tex_width,
                self.tex_height == old(self).tex_height,
                self.render_state == old(self).render_state,
                self.background == old(self).background,
                self.foreground == old(self).foreground,
                n == frags@.len(),
                0 <= k <= n,
                self.framebuf@ == scan_frame(fb0, z0, w, x as int, y as int, frags@.take(k as int)),
                self.zbuffer@ == scan_depth(z0, w, x as int, y as int, frags@.take(k as int)),
            decreases n - k,
        {
            let px: i128 = x as i128 + k as i128;
            if 0 <= px && 0 <= y && (y as i128) < self.height as i128 {
                proof {
                    lemma_index_in_bounds(w, h, px as int, y as int);
                }
                let idx = (y as usize) * self.width + (px as usize);
                let f = frags[k];
                if f.depth >= self.zbuffer[idx] {
                    self.zbuffer.set(idx, f.depth);
                    self.framebuf.set(idx, f.color);
                }
            }
            proof {
                assert forall|i: int| 0 <= i < w * h implies #[trigger] self.framebuf@[i] == scan_frame(
                    fb0,
                    z0,
                    w,
                    x as int,
                    y as int,
                    frags@.take(k + 1),
                )[i] by {
                    lemma_pixel_index(w, h, px as int, y as int, i);
                }
                assert forall|i: int| 0 <= i < w * h implies #[trigger] self.zbuffer@[i] == scan_depth(
                    z0,
                    w,
                    x as int,
                    y as int,
                    frags@.take(k + 1),
                )[i] by {
                    lemma_pixel_index(w, h, px as int, y as int, i);
                }
            }
            k += 1;
            assert(self.framebuf@ =~= scan_frame(fb0, z0, w, x as int, y as int, frags@.take(k as int)));
            assert(self.zbuffer@ =~= scan_depth(z0, w, x as int, y as int, frags@.take(k as int)));
        }
        proof {
            assert forall|i: int| 0 <= i < w * h implies #[trigger] scan_frame(
                fb0,
                z0,
                w,
                x as int,
                y as int,
                frags@.take(k as int),
            )[i] == scan_frame(fb0, z0, w, x as int, y as int, frags@)[i] && scan_depth(
                z0,
                w,
                x as int,
                y as int,
                frags@.take(k as int),
            )[i] == scan_depth(z0, w, x as int, y as int, frags@)[i] by {
                lemma_pixel_index(w, h, 0, 0, i);
            }
        }
        assert(self.framebuf@ =~= scan_frame(fb0, z0, w, x as int, y as int, frags@));
        assert(self.zbuffer@ =~= scan_depth(z0, w, x as int, y as int, frags@));
    }

    /// Declares the texture to be `w * h` texels, row-major at the start of
    /// the texture buffer.
    pub fn set_texture(&mut self, w: i32, h: i32)
        requires
            old(self).wf(),
            w >= 1,
            h >= 1,
            w * h <= old(self).texture@.len(),
        ensures
            final(self).wf(),
            final(self).tex_width == w,
            final(self).tex_height == h,
            final(self).width == old(self).width,
            final(self).height == old(self).height,
            final(self).framebuf@ == old(self).framebuf@,
            final(self).zbuffer@ == old(self).zbuffer@,
            final(self).texture@ == old(self).texture@,
            final(self).render_state == old(self).render_state,
            final(self).background == old(self).background,
            final(self).foreground == old(self).foreground,
    {
        self.tex_width = w;
        self.tex_height = h;
    }

    /// The texel nearest to texture coordinates `(x, y)`, each first clamped
    /// to the texture's bounds.
    pub fn texture_read(&self, x: i32, y: i32) -> (c: u32)
        requires
            self.wf(),
        ensures
            c == self.texture@[clamp(y as int, 0, self.tex_height - 1) * self.tex_width + clamp(
                x as int,
                0,
                self.tex_width - 1,
            )],
    {
        let n = self.texture.len();
        let tx = CMID(x, 0, self.tex_width - 1);
        let ty = CMID(y, 0, self.tex_height - 1);
        proof {
            lemma_index_in_bounds(self.tex_width as int, self.tex_height as int, tx as int, ty as int);
        }
        self.texture[(ty as usize) * (self.tex_width as usize) + (tx as usize)]
    }

    /// Replaces the texture with the 256 x 256 checkerboard of `checker_color`.
    pub fn init_texture(&mut self)
        requires
            old(self).wf(),
        ensures
            final(self).wf(),
            final(self).tex_width == 256,
            final(self).tex_height == 256,
            final(self).texture@.len() == 256 * 256,
            forall|k: int|
                0 <= k < 256 * 256 ==> #[trigger] final(self).texture@[k] == checker_color(
                    k % 256,
                    k / 256,
                ),
            final(self).width == old(self).width,
            final(self).height == old(self).height,
            final(self).framebuf@ == old(self).framebuf@,
            final(self).zbuffer@ == old(self).zbuffer@,
            final(self).render_state == old(self).render_state,
            final(self).background == old(self).background,
            final(self).foreground == old(self).foreground,
    {
        let mut tex: Vec<u32> = Vec::with_capacity(256 * 256);
        let mut j: usize = 0;
        while j < 256
            invariant
                0 <= j <= 256,
                tex@.len() == j * 256,
                forall|k: int|
                    0 <= k < tex@.len() ==> #[trigger] tex@[k] == checker_color(k % 256, k / 256),
            decreases 256 - j,
        {
            let mut i: usize = 0;
            while i < 256
                invariant
                    0 <= i <= 256,
                    0 <= j < 256,
                    tex@.len() == j * 256 + i,
                    forall|k: int|
                        0 <= k < tex@.len() ==> #[trigger] tex@[k] == checker_color(k % 256, k / 256),
                decreases 256 - i,
            {
                let x = i / 32;
                let y = j / 32;
                let c: u32 = if (x + y) % 2 == 1 {
                    0xffffff
                } else {
                    0x3fbcef
                };
                proof {
                    vstd::arithmetic::div_mod::lemma_fundamental_div_mod_converse(
                        (j * 256 + i) as int,
                        256,
                        j as int,
                        i as int,
                    );
                }
                tex.push(c);
                i += 1;
            }
            j += 1;
        }
        self.texture = tex;
        self.tex_width = 256;
        self.tex_height = 256;
    }

    /// The rows that a trapezoid spanning rows `top` (included) to `bottom`
    /// (excluded) covers inside the buffer, as a half-open range.
    pub fn trap_rows(&self, top: i32, bottom: i32) -> (r: (i32, i32))
        requires
            self.wf(),
        ensures
            r.0 <= r.1,
            forall|j: int| #[trigger] in_range(r, j) <==> (top <= j < bottom && 0 <= j < self.height),
    {
        let first: i32 = if top < 0 {
            0
        } else {
            top
        };
        let mut end: i32 = if (bottom as i128) > (self.height as i128) {
            self.height as i32
        } else {
            bottom
        };
        if end < first {
            end = first;
        }
        (first, end)
    }
}

} // verus!
