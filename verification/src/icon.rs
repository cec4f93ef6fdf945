//! Procedural terminal icon: a dark rounded square with an amber `>_` prompt,
//! rendered into an RGBA buffer and packed into a multi-size Windows ICO file.
use vstd::prelude::*;
use vstd::arithmetic::div_mod::lemma_fundamental_div_mod;
use vstd::arithmetic::div_mod::lemma_fundamental_div_mod_converse;

verus! {

/// Background colour of the icon.
pub const BG: [u8; 4] = [0x0b, 0x0a, 0x08, 0xff];

/// Accent colour of the icon.
pub const AMBER: [u8; 4] = [0xff, 0xb0, 0x00, 0xff];

// ---------- Model of a square RGBA buffer ----------

/// The column of the pixel that byte `i` of a `w`-wide RGBA buffer belongs to.
pub open spec fn pixel_x(w: int, i: int) -> int {
    (i / 4) % w
}

/// The row of the pixel that byte `i` of a `w`-wide RGBA buffer belongs to.
pub open spec fn pixel_y(w: int, i: int) -> int {
    (i / 4) / w
}

/// `buf` with every pixel of the `w`-wide square image for which `region` holds set to
/// colour `c`; pixels outside the image are clipped away.
pub open spec fn painted(buf: Seq<u8>, w: int, region: spec_fn(int, int) -> bool, c: Seq<u8>) -> Seq<u8> {
    Seq::new(
        buf.len(),
        |i: int| if region(pixel_x(w, i), pixel_y(w, i)) { c[i % 4] } else { buf[i] },
    )
}

/// Byte `k` of pixel `(x, y)` lies at index `(y * w + x) * 4 + k`, and that index maps back to
/// the same pixel and channel.
proof fn lemma_pixel_index(w: int, x: int, y: int, k: int)
    requires
        0 <= x < w,
        0 <= y < w,
        0 <= k < 4,
    ensures
        0 <= (y * w + x) * 4 + k < w * w * 4,
        ((y * w + x) * 4 + k) % 4 == k,
        pixel_x(w, (y * w + x) * 4 + k) == x,
        pixel_y(w, (y * w + x) * 4 + k) == y,
{
    let i = (y * w + x) * 4 + k;
    assert(0 <= y * w + x < w * w) by (nonlinear_arith)
        requires 0 <= x < w, 0 <= y < w;
    lemma_fundamental_div_mod_converse(i, 4, y * w + x, k);
    lemma_fundamental_div_mod_converse(y * w + x, w, y, x);
}

/// Every byte index of a `w`-wide image belongs to a pixel inside the image.
proof fn lemma_index_pixel(w: int, i: int)
    requires
        0 < w,
        0 <= i < w * w * 4,
    ensures
        0 <= pixel_x(w, i) < w,
        0 <= pixel_y(w, i) < w,
        i == (pixel_y(w, i) * w + pixel_x(w, i)) * 4 + i % 4,
        0 <= i % 4 < 4,
{
    lemma_fundamental_div_mod(i, 4);
    let p = i / 4;
    lemma_fundamental_div_mod(p, w);
    assert(0 <= p < w * w) by (nonlinear_arith)
        requires i == 4 * p + i % 4, 0 <= i % 4 < 4, 0 <= i < w * w * 4;
    assert(0 <= p / w < w) by (nonlinear_arith)
        requires p == w * (p / w) + p % w, 0 <= p % w < w, 0 <= p < w * w;
    assert(p == (p / w) * w + p % w) by (nonlinear_arith)
        requires p == w * (p / w) + p % w;
}

/// Painting the same colour twice paints the union of the two regions.
proof fn lemma_painted_union(
    buf: Seq<u8>,
    w: int,
    a: spec_fn(int, int) -> bool,
    b: spec_fn(int, int) -> bool,
    u: spec_fn(int, int) -> bool,
    c: Seq<u8>,
)
    requires
        0 < w,
        buf.len() == w * w * 4,
        forall|x: int, y: int| 0 <= x < w && 0 <= y < w ==> (#[trigger] u(x, y) <==> a(x, y) || b(x, y)),
    ensures
        painted(painted(buf, w, a, c), w, b, c) == painted(buf, w, u, c),
{
    assert forall|i: int| 0 <= i < buf.len() implies painted(painted(buf, w, a, c), w, b, c)[i]
        == painted(buf, w, u, c)[i] by {
        lemma_index_pixel(w, i);
    }
    assert(painted(painted(buf, w, a, c), w, b, c) =~= painted(buf, w, u, c));
}

/// Two regions that agree on every pixel of the image paint the same thing.
proof fn lemma_painted_agree(
    buf: Seq<u8>,
    w: int,
    a: spec_fn(int, int) -> bool,
    b: spec_fn(int, int) -> bool,
    c: Seq<u8>,
)
    requires
        0 < w,
        buf.len() == w * w * 4,
        forall|x: int, y: int| 0 <= x < w && 0 <= y < w ==> (#[trigger] a(x, y) <==> b(x, y)),
    ensures
        painted(buf, w, a, c) == painted(buf, w, b, c),
{
    assert forall|i: int| 0 <= i < buf.len() implies painted(buf, w, a, c)[i] == painted(
        buf,
        w,
        b,
        c,
    )[i] by {
        lemma_index_pixel(w, i);
    }
    assert(painted(buf, w, a, c) =~= painted(buf, w, b, c));
}

/// An empty region leaves the buffer unchanged.
proof fn lemma_painted_nothing(buf: Seq<u8>, w: int, a: spec_fn(int, int) -> bool, c: Seq<u8>)
    requires
        0 < w,
        buf.len() == w * w * 4,
        forall|x: int, y: int| 0 <= x < w && 0 <= y < w ==> !#[trigger] a(x, y),
    ensures
        painted(buf, w, a, c) == buf,
{
    assert forall|i: int| 0 <= i < buf.len() implies painted(buf, w, a, c)[i] == buf[i] by {
        lemma_index_pixel(w, i);
    }
    assert(painted(buf, w, a, c) =~= buf);
}

/// The one-pixel region `{(x, y)}`.
pub open spec fn single_pixel(x: int, y: int) -> spec_fn(int, int) -> bool {
    |px: int, py: int| px == x && py == y
}

/// Sets pixel `(x, y)` of the `w`-wide image held in the first `w * w * 4` bytes of `buf` to
/// `c`; pixels outside the image are ignored, and bytes past the image are left alone.
fn put(buf: &mut Vec<u8>, w: u32, x: i32, y: i32, c: [u8; 4])
    requires
        old(buf)@.len() >= w * w * 4,
        w * w * 4 <= u32::MAX,
    ensures
        final(buf)@.len() == old(buf)@.len(),
        final(buf)@.take(w * w * 4) == painted(
            old(buf)@.take(w * w * 4),
            w as int,
            single_pixel(x as int, y as int),
            c@,
        ),
        final(buf)@.skip(w * w * 4) == old(buf)@.skip(w * w * 4),
        old(buf)@.len() == w * w * 4 ==> final(buf)@ == painted(
            old(buf)@,
            w as int,
            single_pixel(x as int, y as int),
            c@,
        ),
{
    let ghost w_i = w as int;
    let ghost n = w * w * 4;
    let ghost old_buf = buf@;
    let ghost prefix = old_buf.take(n);
    proof {
        if old_buf.len() == n {
            assert(prefix =~= old_buf);
        }
    }
    if x < 0 || y < 0 || x as u32 >= w || y as u32 >= w {
        proof {
            if w > 0 {
                assert forall|i: int| 0 <= i < prefix.len() implies !single_pixel(x as int, y as int)(
                    pixel_x(w_i, i),
                    pixel_y(w_i, i),
                ) by {
                    lemma_index_pixel(w_i, i);
                }
            }
            assert(painted(prefix, w_i, single_pixel(x as int, y as int), c@) =~= prefix);
        }
        return;
    }
    let xu = x as u32;
    let yu = y as u32;
    proof {
        lemma_pixel_index(w_i, xu as int, yu as int, 3);
        assert(yu * w + xu < w * w) by (nonlinear_arith)
            requires xu < w, yu < w;
    }
    let idx = ((yu * w + xu) * 4) as usize;
    buf.set(idx, c[0]);
    buf.set(idx + 1, c[1]);
    buf.set(idx + 2, c[2]);
    buf.set(idx + 3, c[3]);
    proof {
        let target = painted(prefix, w_i, single_pixel(x as int, y as int), c@);
        assert forall|i: int| 0 <= i < n implies buf@[i] == target[i] by {
            lemma_index_pixel(w_i, i);
            let px = pixel_x(w_i, i);
            let py = pixel_y(w_i, i);
            if px == x && py == y {
                assert(i == idx + i % 4);
            } else {
                if idx <= i < idx + 4 {
                    lemma_pixel_index(w_i, xu as int, yu as int, i - idx);
                }
            }
        }
        assert(buf@.take(n) =~= target);
        assert(buf@.skip(n) =~= old_buf.skip(n));
        if old_buf.len() == n {
            assert(buf@ =~= target);
        }
    }
}


/// How far `v` lies inside the rounded corner band of the span `[lo, lo + len)` with corner
/// radius `r`: the distance to the corner circle's centre line, or 0 along the straight part.
pub open spec fn corner_offset(v: int, lo: int, len: int, r: int) -> int {
    if v < lo + r {
        lo + r - v
    } else if v >= lo + len - r {
        v - (lo + len - r - 1)
    } else {
        0
    }
}

/// Whether pixel `(x, y)` lies inside the rectangle at `(rx, ry)` of size `rw` x `rh` whose
/// corners are rounded with radius `r`.
pub open spec fn in_rounded_rect(x: int, y: int, rx: int, ry: int, rw: int, rh: int, r: int) -> bool {
    if x < rx || y < ry || x >= rx + rw || y >= ry + rh {
        false
    } else if r <= 0 {
        true
    } else {
        let dx = corner_offset(x, rx, rw, r);
        let dy = corner_offset(y, ry, rh, r);
        dx * dx + dy * dy <= r * r
    }
}

/// Largest coordinate magnitude the drawing helpers accept.
pub open spec fn coord_bound() -> int {
    0x100_0000
}

fn inside_rounded(x: i32, y: i32, rx: i32, ry: i32, rw: i32, rh: i32, r: i32) -> (res: bool)
    requires
        -coord_bound() <= x <= coord_bound(),
        -coord_bound() <= y <= coord_bound(),
        -coord_bound() <= rx <= coord_bound(),
        -coord_bound() <= ry <= coord_bound(),
        -coord_bound() <= rw <= coord_bound(),
        -coord_bound() <= rh <= coord_bound(),
        r <= 32767,
    ensures
        res == in_rounded_rect(x as int, y as int, rx as int, ry as int, rw as int, rh as int, r as int),
{
    if x < rx || y < ry || x >= rx + rw || y >= ry + rh {
        return false;
    }
    if r <= 0 {
        return true;
    }
    let dx = if x < rx + r {
        rx + r - x
    } else if x >= rx + rw - r {
        x - (rx + rw - r - 1)
    } else {
        0
    };
    let dy = if y < ry + r {
        ry + r - y
    } else if y >= ry + rh - r {
        y - (ry + rh - r - 1)
    } else {
        0
    };
    assert(0 <= dx <= r && 0 <= dy <= r);
    assert(dx * dx <= r * r && dy * dy <= r * r) by (nonlinear_arith)
        requires 0 <= dx <= r, 0 <= dy <= r;
    assert(r * r <= 32767 * 32767) by (nonlinear_arith)
        requires 0 < r <= 32767;
    dx * dx + dy * dy <= r * r
}


// ---------- Thick lines ----------

/// Whether offset `(dx, dy)` lies in the disk of radius `r` centred at the origin.
pub open spec fn in_disk(dx: int, dy: int, r: int) -> bool {
    -r <= dx <= r && -r <= dy <= r && dx * dx + dy * dy <= r * r
}

/// The disk of radius `r` around `(cx, cy)`, painted only up to (not including) offset row
/// `row`, and in that row only up to offset column `col`.
pub open spec fn disk_upto(cx: int, cy: int, r: int, row: int, col: int) -> spec_fn(int, int) -> bool {
    |px: int, py: int|
        in_disk(px - cx, py - cy, r) && (py - cy < row || (py - cy == row && px - cx < col))
}

/// The full disk of radius `r` around `(cx, cy)`.
pub open spec fn disk_at(cx: int, cy: int, r: int) -> spec_fn(int, int) -> bool {
    |px: int, py: int| in_disk(px - cx, py - cy, r)
}

/// Paints the disk of radius `r` around `(cx, cy)`.
fn stamp_disk(buf: &mut Vec<u8>, w: u32, cx: i32, cy: i32, r: i32, c: [u8; 4])
    requires
        old(buf)@.len() == w * w * 4,
        w * w * 4 <= u32::MAX,
        -0x2_0000 <= cx <= 0x2_0000,
        -0x2_0000 <= cy <= 0x2_0000,
        0 <= r <= 4096,
    ensures
        final(buf)@ == painted(old(buf)@, w as int, disk_at(cx as int, cy as int, r as int), c@),
{
    let ghost w_i = w as int;
    let ghost start = buf@;
    let ghost (cxi, cyi, ri) = (cx as int, cy as int, r as int);
    if w == 0 {
        assert(painted(start, w_i, disk_at(cxi, cyi, ri), c@) =~= start);
        return;
    }
    proof {
        lemma_painted_nothing(start, w_i, disk_upto(cxi, cyi, ri, -ri, -ri), c@);
    }
    let mut j: i32 = -r;
    while j <= r
        invariant
            -r <= j <= r + 1,
            0 <= r <= 4096,
            -0x2_0000 <= cx <= 0x2_0000,
            -0x2_0000 <= cy <= 0x2_0000,
            w > 0,
            w * w * 4 <= u32::MAX,
            w_i == w,
            cxi == cx,
            cyi == cy,
            ri == r,
            start.len() == w * w * 4,
            buf@ == painted(start, w_i, disk_upto(cxi, cyi, ri, j as int, -ri), c@),
        decreases r + 1 - j,
    {
        let mut i: i32 = -r;
        while i <= r
            invariant
                -r <= j <= r,
                -r <= i <= r + 1,
                0 <= r <= 4096,
                -0x2_0000 <= cx <= 0x2_0000,
                -0x2_0000 <= cy <= 0x2_0000,
                w > 0,
                w * w * 4 <= u32::MAX,
                w_i == w,
                cxi == cx,
                cyi == cy,
                ri == r,
                start.len() == w * w * 4,
                buf@ == painted(start, w_i, disk_upto(cxi, cyi, ri, j as int, i as int), c@),
            decreases r + 1 - i,
        {
            assert(0 <= i * i <= 16777216) by (nonlinear_arith)
                requires -4096 <= i <= 4096;
            assert(0 <= j * j <= 16777216) by (nonlinear_arith)
                requires -4096 <= j <= 4096;
            assert(r * r <= 4096 * 4096) by (nonlinear_arith)
                requires 0 <= r <= 4096;
            if i * i + j * j <= r * r {
                put(buf, w, cx + i, cy + j, c);
                proof {
                    lemma_painted_union(
                        start,
                        w_i,
                        disk_upto(cxi, cyi, ri, j as int, i as int),
                        single_pixel(cxi + i, cyi + j),
                        disk_upto(cxi, cyi, ri, j as int, i + 1),
                        c@,
                    );
                }
            } else {
                proof {
                    lemma_painted_agree(
                        start,
                        w_i,
                        disk_upto(cxi, cyi, ri, j as int, i as int),
                        disk_upto(cxi, cyi, ri, j as int, i + 1),
                        c@,
                    );
                }
            }
            i = i + 1;
        }
        proof {
            lemma_painted_agree(
                start,
                w_i,
                disk_upto(cxi, cyi, ri, j as int, ri + 1),
                disk_upto(cxi, cyi, ri, j + 1, -ri),
                c@,
            );
        }
        j = j + 1;
    }
    proof {
        lemma_painted_agree(
            start,
            w_i,
            disk_upto(cxi, cyi, ri, ri + 1, -ri),
            disk_at(cxi, cyi, ri),
            c@,
        );
    }
}


/// `|to - from|`.
pub open spec fn span(from: int, to: int) -> int {
    if from <= to {
        to - from
    } else {
        from - to
    }
}

/// The direction, `1` or `-1`, in which a walk from `from` moves towards `to`.
pub open spec fn step_sign(from: int, to: int) -> int {
    if from < to {
        1
    } else {
        -1
    }
}

/// Bresenham's walk along a line that spans `a` columns and `b` rows, written in step counts:
/// each element is the pair `(i, j)` of steps taken so far along x and y, starting from the
/// state `(i, j)` with error term `err`; `fuel` bounds the number of points.
pub open spec fn line_walk(a: int, b: int, i: int, j: int, err: int, fuel: nat) -> Seq<(int, int)>
    decreases fuel,
{
    if fuel == 0 {
        seq![]
    } else if i == a && j == b {
        seq![(i, j)]
    } else {
        let e2 = 2 * err;
        let i2 = if e2 >= -b { i + 1 } else { i };
        let err2 = if e2 >= -b { err - b } else { err };
        let j2 = if e2 <= a { j + 1 } else { j };
        let err3 = if e2 <= a { err2 + a } else { err2 };
        seq![(i, j)] + line_walk(a, b, i2, j2, err3, (fuel - 1) as nat)
    }
}

/// The step counts of every point that Bresenham's algorithm visits from `(x0, y0)` to
/// `(x1, y1)`, both ends included.
pub open spec fn line_steps(x0: int, y0: int, x1: int, y1: int) -> Seq<(int, int)> {
    let a = span(x0, x1);
    let b = span(y0, y1);
    line_walk(a, b, 0, 0, a - b, (a + b + 1) as nat)
}

/// The pixels within distance `r` of one of the first `n` points of the Bresenham line from
/// `(x0, y0)` to `(x1, y1)`.
pub open spec fn line_prefix_cover(x0: int, y0: int, x1: int, y1: int, r: int, n: int) -> spec_fn(
    int,
    int,
) -> bool {
    let steps = line_steps(x0, y0, x1, y1);
    let sx = step_sign(x0, x1);
    let sy = step_sign(y0, y1);
    |px: int, py: int|
        exists|m: int|
            0 <= m < n && m < steps.len() && in_disk(
                px - (x0 + sx * (#[trigger] steps[m]).0),
                py - (y0 + sy * steps[m].1),
                r,
            )
}

/// The pixels within distance `r` of the Bresenham line from `(x0, y0)` to `(x1, y1)`.
pub open spec fn line_cover(x0: int, y0: int, x1: int, y1: int, r: int) -> spec_fn(int, int) -> bool {
    line_prefix_cover(x0, y0, x1, y1, r, line_steps(x0, y0, x1, y1).len() as int)
}

/// One Bresenham step from a state that is not the end point: at least one coordinate moves,
/// and neither moves past the end.
proof fn lemma_walk_step(a: int, b: int, i: int, j: int, err: int)
    requires
        0 <= a,
        0 <= b,
        0 <= i <= a,
        0 <= j <= b,
        !(i == a && j == b),
        err == a * (j + 1) - b * (i + 1),
    ensures
        2 * err >= -b ==> i < a,
        2 * err <= a ==> j < b,
        2 * err >= -b || 2 * err <= a,
{
    if i == a {
        assert(2 * err < -b) by (nonlinear_arith)
            requires i == a, 0 <= j < b, err == a * (j + 1) - b * (i + 1), 0 <= a;
    }
    if j == b {
        assert(2 * err > a) by (nonlinear_arith)
            requires j == b, 0 <= i < a, err == a * (j + 1) - b * (i + 1), 0 <= b;
    }
}

/// The pixel that the `m`-th point of the Bresenham line from `(x0, y0)` to `(x1, y1)` lands on.
pub open spec fn line_point(x0: int, y0: int, x1: int, y1: int, m: int) -> (int, int) {
    let st = line_steps(x0, y0, x1, y1)[m];
    (x0 + step_sign(x0, x1) * st.0, y0 + step_sign(y0, y1) * st.1)
}

/// Covering one more point of the line adds that point's disk.
proof fn lemma_cover_extend(x0: int, y0: int, x1: int, y1: int, r: int, k: int)
    requires
        0 <= k < line_steps(x0, y0, x1, y1).len(),
    ensures
        forall|px: int, py: int|
            #[trigger] line_prefix_cover(x0, y0, x1, y1, r, k + 1)(px, py) <==> (line_prefix_cover(
                x0,
                y0,
                x1,
                y1,
                r,
                k,
            )(px, py) || disk_at(line_point(x0, y0, x1, y1, k).0, line_point(x0, y0, x1, y1, k).1, r)(
                px,
                py,
            )),
{
    let steps = line_steps(x0, y0, x1, y1);
    let sx = step_sign(x0, x1);
    let sy = step_sign(y0, y1);
    assert forall|px: int, py: int|
        #[trigger] line_prefix_cover(x0, y0, x1, y1, r, k + 1)(px, py) <==> (line_prefix_cover(
            x0,
            y0,
            x1,
            y1,
            r,
            k,
        )(px, py) || disk_at(line_point(x0, y0, x1, y1, k).0, line_point(x0, y0, x1, y1, k).1, r)(
            px,
            py,
        )) by {
        let cur = line_prefix_cover(x0, y0, x1, y1, r, k);
        let next = line_prefix_cover(x0, y0, x1, y1, r, k + 1);
        let p = line_point(x0, y0, x1, y1, k);
        if disk_at(p.0, p.1, r)(px, py) {
            assert(in_disk(px - (x0 + sx * steps[k].0), py - (y0 + sy * steps[k].1), r));
        }
        if cur(px, py) {
            let m = choose|m: int|
                0 <= m < k && m < steps.len() && in_disk(
                    px - (x0 + sx * (#[trigger] steps[m]).0),
                    py - (y0 + sy * steps[m].1),
                    r,
                );
            assert(0 <= m < k + 1 && m < steps.len());
        }
        if next(px, py) {
            let m = choose|m: int|
                0 <= m < k + 1 && m < steps.len() && in_disk(
                    px - (x0 + sx * (#[trigger] steps[m]).0),
                    py - (y0 + sy * steps[m].1),
                    r,
                );
            if m < k {
                assert(cur(px, py));
            }
        }
    }
}

/// Position and error-term bookkeeping of the walk: the current pixel stays between the end
/// points, and the error term fits comfortably in an `i32`.
#[verifier::spinoff_prover]
proof fn lemma_walk_ranges(
    x0: int,
    y0: int,
    x1: int,
    y1: int,
    i: int,
    j: int,
    err: int,
)
    requires
        0 <= i <= span(x0, x1),
        0 <= j <= span(y0, y1),
        err == span(x0, x1) * (j + 1) - span(y0, y1) * (i + 1),
        (span(x0, x1) + 1) * (span(y0, y1) + 1) <= 0x1000_0000,
    ensures
        x0 <= x0 + step_sign(x0, x1) * i <= x1 || x1 <= x0 + step_sign(x0, x1) * i <= x0,
        y0 <= y0 + step_sign(y0, y1) * j <= y1 || y1 <= y0 + step_sign(y0, y1) * j <= y0,
        (x0 + step_sign(x0, x1) * i == x1) == (i == span(x0, x1)),
        (y0 + step_sign(y0, y1) * j == y1) == (j == span(y0, y1)),
        -0x2000_0000 <= err <= 0x2000_0000,
{
    lemma_axis_position(x0, x1, i);
    lemma_axis_position(y0, y1, j);
    lemma_err_bound(span(x0, x1), span(y0, y1), i, j, err);
}

proof fn lemma_axis_position(v0: int, v1: int, i: int)
    requires
        0 <= i <= span(v0, v1),
    ensures
        v0 <= v0 + step_sign(v0, v1) * i <= v1 || v1 <= v0 + step_sign(v0, v1) * i <= v0,
        (v0 + step_sign(v0, v1) * i == v1) == (i == span(v0, v1)),
{
    let sg = step_sign(v0, v1);
    if v0 < v1 {
        assert(sg * i == i) by (nonlinear_arith)
            requires sg == 1;
    } else {
        assert(sg * i == -i) by (nonlinear_arith)
            requires sg == -1;
    }
}

proof fn lemma_err_bound(a: int, b: int, i: int, j: int, err: int)
    requires
        0 <= i <= a,
        0 <= j <= b,
        err == a * (j + 1) - b * (i + 1),
        (a + 1) * (b + 1) <= 0x1000_0000,
    ensures
        -0x2000_0000 <= err <= 0x2000_0000,
{
    assert(-2 * ((a + 1) * (b + 1)) <= err <= 2 * ((a + 1) * (b + 1))) by (nonlinear_arith)
        requires err == a * (j + 1) - b * (i + 1), 0 <= i <= a, 0 <= j <= b;
}

/// The walk from a state that is not the end point continues from the stepped state.
proof fn lemma_walk_unfold(a: int, b: int, i: int, j: int, err: int, fuel: nat)
    requires
        fuel > 0,
        !(i == a && j == b),
    ensures
        line_walk(a, b, i, j, err, fuel) == seq![(i, j)] + line_walk(
            a,
            b,
            if 2 * err >= -b { i + 1 } else { i },
            if 2 * err <= a { j + 1 } else { j },
            if 2 * err <= a { (if 2 * err >= -b { err - b } else { err }) + a } else { if 2 * err >= -b { err - b } else { err } },
            (fuel - 1) as nat,
        ),
{
}

/// Draws a line of the given thickness from `(x0, y0)` to `(x1, y1)` by stamping a disk of
/// radius `thickness / 2` at every point of Bresenham's walk.
fn thick_line(
    buf: &mut Vec<u8>,
    w: u32,
    x0: i32,
    y0: i32,
    x1: i32,
    y1: i32,
    thickness: i32,
    c: [u8; 4],
)
    requires
        old(buf)@.len() == w * w * 4,
        w * w * 4 <= u32::MAX,
        -0x1_0000 <= x0 <= 0x1_0000,
        -0x1_0000 <= y0 <= 0x1_0000,
        -0x1_0000 <= x1 <= 0x1_0000,
        -0x1_0000 <= y1 <= 0x1_0000,
        (span(x0 as int, x1 as int) + 1) * (span(y0 as int, y1 as int) + 1) <= 0x1000_0000,
        0 <= thickness <= 8192,
    ensures
        final(buf)@ == painted(
            old(buf)@,
            w as int,
            line_cover(x0 as int, y0 as int, x1 as int, y1 as int, thickness / 2),
            c@,
        ),
{
    let ghost start = buf@;
    let ghost w_i = w as int;
    let ghost (x0i, y0i, x1i, y1i) = (x0 as int, y0 as int, x1 as int, y1 as int);
    let dx = if x0 <= x1 { x1 - x0 } else { x0 - x1 };
    let dy = if y0 <= y1 { y0 - y1 } else { y1 - y0 };
    let sx: i32 = if x0 < x1 { 1 } else { -1 };
    let sy: i32 = if y0 < y1 { 1 } else { -1 };
    let mut err = dx + dy;
    let mut x = x0;
    let mut y = y0;
    let r = thickness / 2;
    let ghost a = dx as int;
    let ghost b = -(dy as int);
    let ghost steps = line_steps(x0i, y0i, x1i, y1i);
    let ghost mut i: int = 0;
    let ghost mut j: int = 0;
    let ghost mut k: int = 0;
    proof {
        assert(err == a * (j + 1) - b * (i + 1)) by (nonlinear_arith)
            requires err == a - b, i == 0, j == 0;
        if w > 0 {
            lemma_painted_nothing(start, w_i, line_prefix_cover(x0i, y0i, x1i, y1i, r as int, 0), c@);
        } else {
            assert(painted(start, w_i, line_prefix_cover(x0i, y0i, x1i, y1i, r as int, 0), c@) =~= start);
        }
    }
    loop
        invariant_except_break
            buf@ == painted(start, w_i, line_prefix_cover(x0i, y0i, x1i, y1i, r as int, k), c@),
        invariant
            w * w * 4 <= u32::MAX,
            start.len() == w * w * 4,
            w_i == w,
            x0i == x0 && y0i == y0 && x1i == x1 && y1i == y1,
            -0x1_0000 <= x0 <= 0x1_0000,
            -0x1_0000 <= y0 <= 0x1_0000,
            -0x1_0000 <= x1 <= 0x1_0000,
            -0x1_0000 <= y1 <= 0x1_0000,
            a == span(x0i, x1i),
            b == span(y0i, y1i),
            dx == a,
            dy == -b,
            sx == step_sign(x0i, x1i),
            sy == step_sign(y0i, y1i),
            (a + 1) * (b + 1) <= 0x1000_0000,
            0 <= r <= 4096,
            r == thickness / 2,
            steps == line_steps(x0i, y0i, x1i, y1i),
            0 <= i <= a,
            0 <= j <= b,
            0 <= k <= i + j,
            x == x0i + sx * i,
            y == y0i + sy * j,
            err == a * (j + 1) - b * (i + 1),
            line_walk(a, b, i, j, err as int, (a + b + 1 - k) as nat) == steps.skip(k),
            k <= steps.len(),
        ensures
            buf@ == painted(start, w_i, line_cover(x0i, y0i, x1i, y1i, r as int), c@),
        decreases (a - i) + (b - j),
    {
        proof {
            lemma_walk_ranges(x0i, y0i, x1i, y1i, i, j, err as int);
            let fuel = (a + b + 1 - k) as nat;
            assert(line_walk(a, b, i, j, err as int, fuel)[0] == (i, j));
            assert(steps.skip(k).len() > 0);
            assert(steps[k] == steps.skip(k)[0]);
            assert(line_point(x0i, y0i, x1i, y1i, k) == (x as int, y as int));
        }
        stamp_disk(buf, w, x, y, r, c);
        proof {
            lemma_cover_extend(x0i, y0i, x1i, y1i, r as int, k);
            if w > 0 {
                lemma_painted_union(
                    start,
                    w_i,
                    line_prefix_cover(x0i, y0i, x1i, y1i, r as int, k),
                    disk_at(x as int, y as int, r as int),
                    line_prefix_cover(x0i, y0i, x1i, y1i, r as int, k + 1),
                    c@,
                );
            } else {
                assert(buf@ =~= painted(start, w_i, line_prefix_cover(x0i, y0i, x1i, y1i, r as int, k + 1), c@));
            }
        }
        if x == x1 && y == y1 {
            proof {
                let fuel = (a + b + 1 - k) as nat;
                assert(line_walk(a, b, i, j, err as int, fuel).len() == 1);
                assert(steps.len() == k + 1);
            }
            break;
        }
        proof {
            lemma_walk_step(a, b, i, j, err as int);
            lemma_walk_unfold(a, b, i, j, err as int, (a + b + 1 - k) as nat);
        }
        let e2 = 2 * err;
        let ghost (i_prev, j_prev, err_prev, k_prev) = (i, j, err as int, k);
        if e2 >= dy {
            err += dy;
            x += sx;
            proof {
                i = i + 1;
            }
        }
        if e2 <= dx {
            err += dx;
            y += sy;
            proof {
                j = j + 1;
            }
        }
        proof {
            k = k + 1;
            assert(err == a * (j + 1) - b * (i + 1)) by (nonlinear_arith)
                requires
                    err_prev == a * (j_prev + 1) - b * (i_prev + 1),
                    i == i_prev || i == i_prev + 1,
                    j == j_prev || j == j_prev + 1,
                    i == i_prev + 1 ==> j == j_prev + 1 ==> err == err_prev - b + a,
                    i == i_prev + 1 ==> j == j_prev ==> err == err_prev - b,
                    i == i_prev ==> j == j_prev + 1 ==> err == err_prev + a,
                    i == i_prev ==> j == j_prev ==> err == err_prev;
            assert(x == x0i + sx * i && y == y0i + sy * j) by (nonlinear_arith)
                requires
                    x0i + sx * i_prev + (if i == i_prev { 0 } else { sx as int }) == x,
                    y0i + sy * j_prev + (if j == j_prev { 0 } else { sy as int }) == y,
                    i == i_prev || i == i_prev + 1,
                    j == j_prev || j == j_prev + 1;
            assert(steps.skip(k) =~= steps.skip(k_prev).drop_first());
        }
    }
}


// ---------- Filled shapes ----------

/// `v`, or `lo` where `v` is smaller.
pub open spec fn at_least(v: int, lo: int) -> int {
    if v < lo {
        lo
    } else {
        v
    }
}

/// The rounded rectangle at `(rx, ry)` of size `rw` x `rh` with corner radius `r`; with
/// `Some(bw)`, only its frame of width `bw` (the shape minus the rounded rectangle inset by `bw`
/// on every side, whose radius shrinks by `bw`).
pub open spec fn frame_region(rx: int, ry: int, rw: int, rh: int, r: int, bw: Option<int>) -> spec_fn(
    int,
    int,
) -> bool {
    |px: int, py: int|
        in_rounded_rect(px, py, rx, ry, rw, rh, r) && match bw {
            None => true,
            Some(bw) => !in_rounded_rect(
                px,
                py,
                rx + bw,
                ry + bw,
                rw - bw * 2,
                rh - bw * 2,
                at_least(r - bw, 0),
            ),
        }
}

/// `region` restricted to the pixels that a row-major scan reaches before `(col, row)`.
pub open spec fn scanned(region: spec_fn(int, int) -> bool, row: int, col: int) -> spec_fn(
    int,
    int,
) -> bool {
    |px: int, py: int| region(px, py) && (py < row || (py == row && px < col))
}

/// The axis-aligned rectangle at `(rx, ry)` of size `rw` x `rh`.
pub open spec fn rect_region(rx: int, ry: int, rw: int, rh: int) -> spec_fn(int, int) -> bool {
    |px: int, py: int| rx <= px < rx + rw && ry <= py < ry + rh
}

/// Paints the rounded rectangle (or, with `Some(bw)`, its frame) over the whole `w` x `w` image.
fn fill_rounded(
    buf: &mut Vec<u8>,
    w: u32,
    rx: i32,
    ry: i32,
    rw: i32,
    rh: i32,
    r: i32,
    bw: Option<i32>,
    c: [u8; 4],
)
    requires
        old(buf)@.len() == w * w * 4,
        w * w * 4 <= u32::MAX,
        0 <= rx <= 0x1_0000,
        0 <= ry <= 0x1_0000,
        -0x1_0000 <= rw <= 0x1_0000,
        -0x1_0000 <= rh <= 0x1_0000,
        0 <= r <= 32767,
        bw matches Some(b) ==> 0 <= b <= 0x1_0000,
    ensures
        final(buf)@ == painted(
            old(buf)@,
            w as int,
            frame_region(rx as int, ry as int, rw as int, rh as int, r as int, match bw {
                None => None,
                Some(b) => Some(b as int),
            }),
            c@,
        ),
{
    let ghost start = buf@;
    let ghost w_i = w as int;
    let ghost region = frame_region(rx as int, ry as int, rw as int, rh as int, r as int, match bw {
        None => None,
        Some(b) => Some(b as int),
    });
    if w == 0 {
        assert(painted(start, w_i, region, c@) =~= start);
        return;
    }
    assert(w <= 0x8000) by (nonlinear_arith)
        requires w * w * 4 <= u32::MAX;
    let s = w as i32;
    proof {
        lemma_painted_nothing(start, w_i, scanned(region, 0, 0), c@);
    }
    let mut y: i32 = 0;
    while y < s
        invariant
            0 <= y <= s,
            s == w,
            0 < w <= 0x8000,
            w_i == w,
            w * w * 4 <= u32::MAX,
            start.len() == w * w * 4,
            0 <= rx <= 0x1_0000,
            0 <= ry <= 0x1_0000,
            -0x1_0000 <= rw <= 0x1_0000,
            -0x1_0000 <= rh <= 0x1_0000,
            0 <= r <= 32767,
            bw matches Some(b) ==> 0 <= b <= 0x1_0000,
            region == frame_region(rx as int, ry as int, rw as int, rh as int, r as int, match bw {
                None => None,
                Some(b) => Some(b as int),
            }),
            buf@ == painted(start, w_i, scanned(region, y as int, 0), c@),
        decreases s - y,
    {
        let mut x: i32 = 0;
        while x < s
            invariant
                0 <= y < s,
                0 <= x <= s,
                s == w,
                0 < w <= 0x8000,
                w_i == w,
                w * w * 4 <= u32::MAX,
                start.len() == w * w * 4,
                0 <= rx <= 0x1_0000,
                0 <= ry <= 0x1_0000,
                -0x1_0000 <= rw <= 0x1_0000,
                -0x1_0000 <= rh <= 0x1_0000,
                0 <= r <= 32767,
                bw matches Some(b) ==> 0 <= b <= 0x1_0000,
                region == frame_region(rx as int, ry as int, rw as int, rh as int, r as int, match bw {
                    None => None,
                    Some(b) => Some(b as int),
                }),
                buf@ == painted(start, w_i, scanned(region, y as int, x as int), c@),
            decreases s - x,
        {
            let outer = inside_rounded(x, y, rx, ry, rw, rh, r);
            let paint = match bw {
                None => outer,
                Some(b) => {
                    let rr = if r - b < 0 { 0 } else { r - b };
                    let hole = inside_rounded(x, y, rx + b, ry + b, rw - b * 2, rh - b * 2, rr);
                    outer && !hole
                },
            };
            assert(paint == region(x as int, y as int));
            if paint {
                put(buf, w, x, y, c);
                proof {
                    lemma_painted_union(
                        start,
                        w_i,
                        scanned(region, y as int, x as int),
                        single_pixel(x as int, y as int),
                        scanned(region, y as int, x + 1),
                        c@,
                    );
                }
            } else {
                proof {
                    lemma_painted_agree(
                        start,
                        w_i,
                        scanned(region, y as int, x as int),
                        scanned(region, y as int, x + 1),
                        c@,
                    );
                }
            }
            x = x + 1;
        }
        proof {
            lemma_painted_agree(
                start,
                w_i,
                scanned(region, y as int, s as int),
                scanned(region, y + 1, 0),
                c@,
            );
        }
        y = y + 1;
    }
    proof {
        lemma_painted_agree(start, w_i, scanned(region, s as int, 0), region, c@);
    }
}

/// Paints the rectangle at `(rx, ry)` of size `rw` x `rh`, clipped to the image.
fn fill_rect(buf: &mut Vec<u8>, w: u32, rx: i32, ry: i32, rw: i32, rh: i32, c: [u8; 4])
    requires
        old(buf)@.len() == w * w * 4,
        w * w * 4 <= u32::MAX,
        -0x1_0000 <= rx <= 0x1_0000,
        -0x1_0000 <= ry <= 0x1_0000,
        0 <= rw <= 0x1_0000,
        0 <= rh <= 0x1_0000,
    ensures
        final(buf)@ == painted(old(buf)@, w as int, rect_region(rx as int, ry as int, rw as int, rh as int), c@),
{
    let ghost start = buf@;
    let ghost w_i = w as int;
    let ghost region = rect_region(rx as int, ry as int, rw as int, rh as int);
    if w == 0 {
        assert(painted(start, w_i, region, c@) =~= start);
        return;
    }
    proof {
        lemma_painted_nothing(start, w_i, scanned(region, ry as int, rx as int), c@);
    }
    let mut y: i32 = ry;
    while y < ry + rh
        invariant
            ry <= y <= ry + rh,
            0 < w,
            w_i == w,
            w * w * 4 <= u32::MAX,
            start.len() == w * w * 4,
            -0x1_0000 <= rx <= 0x1_0000,
            -0x1_0000 <= ry <= 0x1_0000,
            0 <= rw <= 0x1_0000,
            0 <= rh <= 0x1_0000,
            region == rect_region(rx as int, ry as int, rw as int, rh as int),
            buf@ == painted(start, w_i, scanned(region, y as int, rx as int), c@),
        decreases ry + rh - y,
    {
        let mut x: i32 = rx;
        while x < rx + rw
            invariant
                ry <= y < ry + rh,
                rx <= x <= rx + rw,
                0 < w,
                w_i == w,
                w * w * 4 <= u32::MAX,
                start.len() == w * w * 4,
                -0x1_0000 <= rx <= 0x1_0000,
                -0x1_0000 <= ry <= 0x1_0000,
                0 <= rw <= 0x1_0000,
                0 <= rh <= 0x1_0000,
                region == rect_region(rx as int, ry as int, rw as int, rh as int),
                buf@ == painted(start, w_i, scanned(region, y as int, x as int), c@),
            decreases rx + rw - x,
        {
            put(buf, w, x, y, c);
            proof {
                lemma_painted_union(
                    start,
                    w_i,
                    scanned(region, y as int, x as int),
                    single_pixel(x as int, y as int),
                    scanned(region, y as int, x + 1),
                    c@,
                );
            }
            x = x + 1;
        }
        proof {
            lemma_painted_agree(
                start,
                w_i,
                scanned(region, y as int, (rx + rw) as int),
                scanned(region, y + 1, rx as int),
                c@,
            );
        }
        y = y + 1;
    }
    proof {
        lemma_painted_agree(start, w_i, scanned(region, (ry + rh) as int, rx as int), region, c@);
    }
}


// ---------- The icon ----------

/// The pixels of the `size` x `size` icon, as row-major, top-down RGBA8 bytes: a transparent
/// canvas, a dark rounded square, an amber frame around it, an amber `>` chevron drawn as two
/// thick lines, and an amber `_` cursor to its right, each layer painted over the previous ones.
pub open spec fn icon_image(size: int) -> Seq<u8> {
    let s = size;
    let blank = Seq::new((s * s * 4) as nat, |i: int| 0u8);
    let pad = at_least(s / 32, 1);
    let r = (s * 6) / 32;
    let inner = s - pad * 2;
    let background = painted(blank, s, frame_region(pad, pad, inner, inner, r, None), BG@);
    let bw = at_least(s / 16, 1);
    let framed = painted(background, s, frame_region(pad, pad, inner, inner, r, Some(bw)), AMBER@);
    let cx = s / 2 - s / 8;
    let cy = s / 2;
    let chev_w = s / 3;
    let chev_h = (s * 2) / 5;
    let radius = at_least(s / 10, 2) / 2;
    let upper = painted(
        framed,
        s,
        line_cover(cx - chev_w / 2, cy - chev_h / 2, cx + chev_w / 2, cy, radius),
        AMBER@,
    );
    let chevron = painted(
        upper,
        s,
        line_cover(cx + chev_w / 2, cy, cx - chev_w / 2, cy + chev_h / 2, radius),
        AMBER@,
    );
    let uh = at_least(s / 12, 2);
    painted(chevron, s, rect_region(s / 2 + s / 12, cy + chev_h / 2 - uh, s / 4, uh), AMBER@)
}

/// Renders the icon to a `size` x `size` RGBA8 buffer (row-major, top-down).
#[verifier::spinoff_prover]
#[verifier::rlimit(40)]
pub fn render_rgba(size: u32) -> (buf: Vec<u8>)
    requires
        size * size * 4 <= u32::MAX,
    ensures
        buf@ == icon_image(size as int),
        buf@.len() == size * size * 4,
{
    assert(size <= 32767) by (nonlinear_arith)
        requires size * size * 4 <= u32::MAX;
    let s = size as i32;
    let mut buf = vec![0u8; (size * size * 4) as usize];
    proof {
        assert(buf@ =~= Seq::new((s * s * 4) as nat, |i: int| 0u8));
    }

    // Layout
    let pad = if s / 32 < 1 { 1 } else { s / 32 };
    let r = (s * 6) / 32;
    let inner_x = pad;
    let inner_y = pad;
    let inner_w = s - pad * 2;
    let inner_h = s - pad * 2;

    // Filled rounded-rect background
    fill_rounded(&mut buf, size, inner_x, inner_y, inner_w, inner_h, r, None, BG);

    // Amber border
    let bw = if s / 16 < 1 { 1 } else { s / 16 };
    fill_rounded(&mut buf, size, inner_x, inner_y, inner_w, inner_h, r, Some(bw), AMBER);

    // ">" chevron: two thick lines forming a V on its side
    let cx = s / 2 - s / 8;
    let cy = s / 2;
    let chev_w = s / 3;
    let chev_h = (s * 2) / 5;
    let thickness = if s / 10 < 2 { 2 } else { s / 10 };
    let p1 = (cx - chev_w / 2, cy - chev_h / 2);
    let p2 = (cx + chev_w / 2, cy);
    let p3 = (cx - chev_w / 2, cy + chev_h / 2);
    assert(span(p1.0 as int, p2.0 as int) <= 2 * (chev_w / 2) && span(p1.1 as int, p2.1 as int) <= chev_h / 2);
    assert((span(p1.0 as int, p2.0 as int) + 1) * (span(p1.1 as int, p2.1 as int) + 1) <= 0x1000_0000)
        by (nonlinear_arith)
        requires
            0 <= span(p1.0 as int, p2.0 as int) <= 11000,
            0 <= span(p1.1 as int, p2.1 as int) <= 11000;
    assert((span(p2.0 as int, p3.0 as int) + 1) * (span(p2.1 as int, p3.1 as int) + 1) <= 0x1000_0000)
        by (nonlinear_arith)
        requires
            0 <= span(p2.0 as int, p3.0 as int) <= 11000,
            0 <= span(p2.1 as int, p3.1 as int) <= 11000;
    thick_line(&mut buf, size, p1.0, p1.1, p2.0, p2.1, thickness, AMBER);
    thick_line(&mut buf, size, p2.0, p2.1, p3.0, p3.1, thickness, AMBER);

    // "_" cursor underscore to the right of the chevron
    let ux = s / 2 + s / 12;
    let uw = s / 4;
    let uh = if s / 12 < 2 { 2 } else { s / 12 };
    let uy = cy + chev_h / 2 - uh;
    fill_rect(&mut buf, size, ux, uy, uw, uh, AMBER);

    buf
}


// ---------- BMP / ICO encoding ----------

/// The `n` least significant bytes of `v >= 0`, least significant first.
pub open spec fn le_bytes(v: int, n: nat) -> Seq<u8>
    decreases n,
{
    if n == 0 {
        seq![]
    } else {
        seq![(v % 256) as u8] + le_bytes(v / 256, (n - 1) as nat)
    }
}

/// Appends the little-endian bytes of a `u16`.
fn push_u16_le(out: &mut Vec<u8>, v: u16)
    ensures
        final(out)@ == old(out)@ + le_bytes(v as int, 2),
{
    let b0 = (v % 256) as u8;
    let v1 = v / 256;
    let b1 = (v1 % 256) as u8;
    out.push(b0);
    out.push(b1);
    proof {
        assert(le_bytes(v as int, 2) =~= seq![b0, b1]) by {
            reveal_with_fuel(le_bytes, 3);
        }
    }
}

/// Appends the little-endian bytes of a `u32`.
fn push_u32_le(out: &mut Vec<u8>, v: u32)
    ensures
        final(out)@ == old(out)@ + le_bytes(v as int, 4),
{
    let b0 = (v % 256) as u8;
    let v1 = v / 256;
    let b1 = (v1 % 256) as u8;
    let v2 = v1 / 256;
    let b2 = (v2 % 256) as u8;
    let v3 = v2 / 256;
    let b3 = (v3 % 256) as u8;
    out.push(b0);
    out.push(b1);
    out.push(b2);
    out.push(b3);
    proof {
        assert(le_bytes(v as int, 4) =~= seq![b0, b1, b2, b3]) by {
            reveal_with_fuel(le_bytes, 5);
        }
    }
}

/// Bytes per row of the 1-bit AND mask of a `width`-pixel-wide icon image (rows padded to 4
/// bytes).
pub open spec fn mask_row_len(width: int) -> int {
    (width + 31) / 32 * 4
}

/// Length of the encoded icon image of `width` x `height` pixels.
pub open spec fn bmp_len(width: int, height: int) -> int {
    40 + width * 4 * height + mask_row_len(width) * height
}

/// The BITMAPINFOHEADER of an icon image: the height field counts the XOR image and the AND
/// mask, so it is twice the image height; 1 plane, 32 bits per pixel, BI_RGB.
pub open spec fn bmp_header(width: int, height: int) -> Seq<u8> {
    le_bytes(40, 4) + le_bytes(width, 4) + le_bytes(height * 2, 4) + le_bytes(1, 2) + le_bytes(
        32,
        2,
    ) + le_bytes(0, 4) + le_bytes(width * 4 * height, 4) + le_bytes(0, 4) + le_bytes(0, 4)
        + le_bytes(0, 4) + le_bytes(0, 4)
}

/// Which RGBA channel feeds output channel `ch` of a BGRA pixel.
pub open spec fn bgra_source(ch: int) -> int {
    if ch == 0 {
        2
    } else if ch == 1 {
        1
    } else if ch == 2 {
        0
    } else {
        3
    }
}

/// The XOR image: the pixels of the top-down RGBA buffer `rgba` as BGRA, bottom row first.
pub open spec fn bmp_pixels(width: int, height: int, rgba: Seq<u8>) -> Seq<u8> {
    Seq::new(
        (width * height * 4) as nat,
        |i: int|
            {
                let row = i / (width * 4);
                let col = (i % (width * 4)) / 4;
                rgba[((height - 1 - row) * width + col) * 4 + bgra_source(i % 4)]
            },
    )
}

/// One icon image: header, bottom-up BGRA pixels, and an all-zero AND mask (transparency comes
/// from the alpha channel).
pub open spec fn bmp_for_ico(width: int, height: int, rgba: Seq<u8>) -> Seq<u8> {
    bmp_header(width, height) + bmp_pixels(width, height, rgba) + Seq::new(
        (mask_row_len(width) * height) as nat,
        |i: int| 0u8,
    )
}

/// Byte `k` of output pixel `x` of output row `row` sits at `(row * width + x) * 4 + k`.
proof fn lemma_bmp_index(width: int, height: int, row: int, x: int, k: int)
    requires
        0 <= row < height,
        0 <= x < width,
        0 <= k < 4,
    ensures
        ({
            let i = (row * width + x) * 4 + k;
            &&& 0 <= i < width * height * 4
            &&& i / (width * 4) == row
            &&& (i % (width * 4)) / 4 == x
            &&& i % 4 == k
        }),
{
    let i = (row * width + x) * 4 + k;
    assert(i == row * (width * 4) + (x * 4 + k)) by (nonlinear_arith)
        requires i == (row * width + x) * 4 + k;
    assert(0 <= x * 4 + k < width * 4) by (nonlinear_arith)
        requires 0 <= x < width, 0 <= k < 4;
    lemma_fundamental_div_mod_converse(i, width * 4, row, x * 4 + k);
    lemma_fundamental_div_mod_converse(x * 4 + k, 4, x, k);
    lemma_fundamental_div_mod_converse(i, 4, row * width + x, k);
    assert(0 <= i < width * height * 4) by (nonlinear_arith)
        requires i == (row * width + x) * 4 + k, 0 <= row < height, 0 <= x < width, 0 <= k < 4;
}

/// Encodes one icon image: a 32-bit BI_RGB bitmap whose rows run bottom-up in BGRA order,
/// followed by an empty AND mask.
fn encode_bmp_for_ico(width: u32, height: u32, rgba: &[u8]) -> (out: Vec<u8>)
    requires
        width * 4 <= u32::MAX,
        height * 2 <= u32::MAX,
        width * height * 4 <= i32::MAX,
        bmp_len(width as int, height as int) <= u32::MAX,
        rgba@.len() >= width * height * 4,
    ensures
        out@ == bmp_for_ico(width as int, height as int, rgba@),
{
    let ghost (w, h) = (width as int, height as int);
    assert(width * height * 4 == width * 4 * height) by (nonlinear_arith);
    assert(0 <= mask_row_len(w) * h) by (nonlinear_arith)
        requires 0 <= w, 0 <= h;
    let row_bytes = (width * 4) as usize;
    let pixel_bytes = row_bytes * height as usize;
    // 1bpp AND mask, rows padded to 4 bytes
    let mask_row_bytes = ((width + 31) / 32 * 4) as usize;
    let mask_bytes = mask_row_bytes * height as usize;

    let mut out: Vec<u8> = Vec::with_capacity(40 + pixel_bytes + mask_bytes);

    // BITMAPINFOHEADER (40 bytes). The height field counts image and mask.
    push_u32_le(&mut out, 40);
    push_u32_le(&mut out, width);
    push_u32_le(&mut out, height * 2);
    push_u16_le(&mut out, 1);
    push_u16_le(&mut out, 32);
    push_u32_le(&mut out, 0);
    push_u32_le(&mut out, pixel_bytes as u32);
    push_u32_le(&mut out, 0);
    push_u32_le(&mut out, 0);
    push_u32_le(&mut out, 0);
    push_u32_le(&mut out, 0);
    let ghost header = out@;
    assert(header =~= bmp_header(w, h));
    let ghost pixels = bmp_pixels(w, h, rgba@);

    // XOR image: 32-bit BGRA, bottom-up
    let mut row: u32 = 0;
    while row < height
        invariant
            0 <= row <= height,
            w == width,
            h == height,
            width * height * 4 <= i32::MAX,
            rgba@.len() >= width * height * 4,
            pixels == bmp_pixels(w, h, rgba@),
            out@ == header + pixels.take(row * width * 4),
        decreases height - row,
    {
        let y = height - 1 - row;
        let mut x: u32 = 0;
        while x < width
            invariant
                0 <= row < height,
                y == height - 1 - row,
                0 <= x <= width,
                w == width,
                h == height,
                width * height * 4 <= i32::MAX,
                rgba@.len() >= width * height * 4,
                pixels == bmp_pixels(w, h, rgba@),
                out@ == header + pixels.take((row * width + x) * 4),
            decreases width - x,
        {
            assert(((y * width + x) * 4 + 3) < width * height * 4) by (nonlinear_arith)
                requires y < height, x < width;
            let idx = ((y * width + x) * 4) as usize;
            let r = rgba[idx];
            let g = rgba[idx + 1];
            let b = rgba[idx + 2];
            let a = rgba[idx + 3];
            out.push(b);
            out.push(g);
            out.push(r);
            out.push(a);
            proof {
                let base = (row * width + x) * 4;
                lemma_bmp_index(w, h, row as int, x as int, 0);
                lemma_bmp_index(w, h, row as int, x as int, 1);
                lemma_bmp_index(w, h, row as int, x as int, 2);
                lemma_bmp_index(w, h, row as int, x as int, 3);
                assert(pixels[base] == b);
                assert(pixels[base + 1] == g);
                assert(pixels[base + 2] == r);
                assert(pixels[base + 3] == a);
                assert(pixels.take(base + 4) =~= pixels.take(base) + seq![b, g, r, a]);
                assert((row * width + (x + 1)) * 4 == base + 4) by (nonlinear_arith)
                    requires base == (row * width + x) * 4;
            }
            x = x + 1;
        }
        assert((row * width + width) * 4 == (row + 1) * width * 4) by (nonlinear_arith);
        row = row + 1;
    }
    assert(pixels.take(height * width * 4) =~= pixels) by {
        assert(height * width * 4 == width * height * 4) by (nonlinear_arith);
    }

    // AND mask: 1bpp, all zero = "use the XOR image's alpha for transparency".
    let ghost body = out@;
    let mut m: usize = 0;
    while m < mask_bytes
        invariant
            0 <= m <= mask_bytes,
            out@ == body + Seq::new(m as nat, |i: int| 0u8),
        decreases mask_bytes - m,
    {
        out.push(0);
        proof {
            assert(Seq::new((m + 1) as nat, |i: int| 0u8) =~= Seq::new(m as nat, |i: int| 0u8).push(0u8));
        }
        m = m + 1;
    }
    proof {
        assert(mask_bytes == mask_row_len(w) * h);
        assert(out@ =~= bmp_for_ico(w, h, rgba@));
    }
    out
}


/// The encoded image of the `size` x `size` icon.
pub open spec fn icon_bmp(size: int) -> Seq<u8> {
    bmp_for_ico(size, size, icon_image(size))
}

/// Total length of the encoded images for `sizes`.
pub open spec fn images_len(sizes: Seq<u32>) -> int
    decreases sizes.len(),
{
    if sizes.len() == 0 {
        0
    } else {
        images_len(sizes.drop_last()) + bmp_len(sizes.last() as int, sizes.last() as int)
    }
}

/// The encoded images for `sizes`, one after the other.
pub open spec fn ico_images(sizes: Seq<u32>) -> Seq<u8>
    decreases sizes.len(),
{
    if sizes.len() == 0 {
        seq![]
    } else {
        ico_images(sizes.drop_last()) + icon_bmp(sizes.last() as int)
    }
}

/// The width/height byte of an ICONDIRENTRY: 0 stands for 256 and above.
pub open spec fn dim_byte(size: int) -> u8 {
    if size >= 256 {
        0
    } else {
        size as u8
    }
}

/// One ICONDIRENTRY for a square image of side `size` stored at byte `offset`.
pub open spec fn ico_entry(size: int, offset: int) -> Seq<u8> {
    seq![dim_byte(size), dim_byte(size), 0u8, 0u8] + le_bytes(1, 2) + le_bytes(32, 2) + le_bytes(
        bmp_len(size, size),
        4,
    ) + le_bytes(offset, 4)
}

/// The directory entries for `sizes`, whose images start at byte `base` of the file.
pub open spec fn ico_entries(sizes: Seq<u32>, base: int) -> Seq<u8>
    decreases sizes.len(),
{
    if sizes.len() == 0 {
        seq![]
    } else {
        ico_entries(sizes.drop_last(), base) + ico_entry(
            sizes.last() as int,
            base + images_len(sizes.drop_last()),
        )
    }
}

proof fn lemma_ico_entries_layout(sizes: Seq<u32>, base: int, k: int)
    requires
        0 <= k < sizes.len(),
    ensures
        ico_entries(sizes, base).len() == 16 * sizes.len(),
        ico_entries(sizes, base)[16 * k] == dim_byte(sizes[k] as int),
        ico_entries(sizes, base)[16 * k + 1] == dim_byte(sizes[k] as int),
    decreases sizes.len(),
{
    let dl = sizes.drop_last();
    let last = sizes.last() as int;
    let e = ico_entry(last, base + images_len(dl));
    lemma_le_bytes_len(1, 2);
    lemma_le_bytes_len(32, 2);
    lemma_le_bytes_len(bmp_len(last, last), 4);
    lemma_le_bytes_len(base + images_len(dl), 4);
    assert(e.len() == 16);
    if dl.len() > 0 {
        let kk = if k < dl.len() { k } else { 0 };
        lemma_ico_entries_layout(dl, base, kk);
    } else {
        assert(ico_entries(dl, base) =~= Seq::<u8>::empty());
    }
    if k < dl.len() {
        assert(dl[k] == sizes[k]);
    } else {
        assert(e[0] == dim_byte(last) && e[1] == dim_byte(last));
    }
}

/// In the directory of the ICO file, entry `k` gives the width and height of the `k`-th image
/// as one byte each: the size itself below 256, and 0 (which ICO reads as 256) from 256 up.
pub proof fn lemma_ico_entry_dims(sizes: Seq<u32>, k: int)
    requires
        0 <= k < sizes.len(),
    ensures
        sizes[k] < 256 ==> ico_file(sizes)[6 + 16 * k] as int == sizes[k] as int
            && ico_file(sizes)[7 + 16 * k] as int == sizes[k] as int,
        sizes[k] >= 256 ==> ico_file(sizes)[6 + 16 * k] == 0 && ico_file(sizes)[7 + 16 * k] == 0,
{
    let n = sizes.len() as int;
    let head = le_bytes(0, 2) + le_bytes(1, 2) + le_bytes(n % 0x1_0000, 2);
    lemma_le_bytes_len(0, 2);
    lemma_le_bytes_len(1, 2);
    lemma_le_bytes_len(n % 0x1_0000, 2);
    let ents = ico_entries(sizes, ico_header_len(n));
    lemma_ico_entries_layout(sizes, ico_header_len(n), k);
    let f = ico_file(sizes);
    assert(f == head + ents + ico_images(sizes));
    assert(head.len() == 6);
    assert(f[6 + 16 * k] == ents[16 * k]);
    assert(f[7 + 16 * k] == ents[16 * k + 1]);
}

/// Length of the ICONDIR header and its entries for `count` images; the count field is 16 bits
/// wide.
pub open spec fn ico_header_len(count: int) -> int {
    6 + 16 * (count % 0x1_0000)
}

/// A multi-size ICO file holding one icon image per entry of `sizes`, in order.
pub open spec fn ico_file(sizes: Seq<u32>) -> Seq<u8> {
    let n = sizes.len() as int;
    le_bytes(0, 2) + le_bytes(1, 2) + le_bytes(n % 0x1_0000, 2) + ico_entries(
        sizes,
        ico_header_len(n),
    ) + ico_images(sizes)
}

/// Whether an icon of side `size` can be rendered and encoded.
pub open spec fn icon_size_ok(size: int) -> bool {
    size * size * 4 <= i32::MAX
}

proof fn lemma_images_len_nonneg(sizes: Seq<u32>)
    ensures
        images_len(sizes) >= 0,
    decreases sizes.len(),
{
    if sizes.len() > 0 {
        lemma_images_len_nonneg(sizes.drop_last());
        let s = sizes.last() as int;
        assert(bmp_len(s, s) >= 0) by (nonlinear_arith)
            requires s >= 0;
    }
}

proof fn lemma_images_len_prefix(sizes: Seq<u32>, k: int)
    requires
        0 <= k <= sizes.len(),
    ensures
        images_len(sizes.take(k)) <= images_len(sizes),
    decreases sizes.len(),
{
    if k < sizes.len() {
        lemma_images_len_prefix(sizes.drop_last(), k);
        assert(sizes.drop_last().take(k) =~= sizes.take(k));
        let s = sizes.last() as int;
        assert(bmp_len(s, s) >= 0) by (nonlinear_arith)
            requires s >= 0;
    } else {
        assert(sizes.take(k) =~= sizes);
    }
}

proof fn lemma_le_bytes_len(v: int, n: nat)
    ensures
        le_bytes(v, n).len() == n,
    decreases n,
{
    if n > 0 {
        lemma_le_bytes_len(v / 256, (n - 1) as nat);
    }
}

proof fn lemma_bmp_for_ico_len(width: int, height: int, rgba: Seq<u8>)
    requires
        0 <= width,
        0 <= height,
    ensures
        bmp_for_ico(width, height, rgba).len() == bmp_len(width, height),
{
    lemma_le_bytes_len(40, 4);
    lemma_le_bytes_len(width, 4);
    lemma_le_bytes_len(height * 2, 4);
    lemma_le_bytes_len(1, 2);
    lemma_le_bytes_len(32, 2);
    lemma_le_bytes_len(0, 4);
    lemma_le_bytes_len(width * 4 * height, 4);
    assert(width * height * 4 == width * 4 * height) by (nonlinear_arith);
    assert(width * height * 4 >= 0 && mask_row_len(width) * height >= 0) by (nonlinear_arith)
        requires 0 <= width, 0 <= height;
}

/// Appends the ICONDIRENTRY of a `size` x `size` image of `img_len` bytes stored at `offset`.
fn push_entry(out: &mut Vec<u8>, size: u32, img_len: u32, offset: u32)
    requires
        img_len == bmp_len(size as int, size as int),
    ensures
        final(out)@ == old(out)@ + ico_entry(size as int, offset as int),
{
    let w_b: u8 = if size >= 256 { 0 } else { size as u8 };
    let h_b: u8 = if size >= 256 { 0 } else { size as u8 };
    out.push(w_b);
    out.push(h_b);
    out.push(0); // color count
    out.push(0); // reserved
    push_u16_le(out, 1); // planes
    push_u16_le(out, 32); // bit count
    push_u32_le(out, img_len);
    push_u32_le(out, offset);
    assert(out@ =~= old(out)@ + ico_entry(size as int, offset as int));
}

/// Encodes a multi-size Windows ICO file holding the icon at every requested size. Each image is
/// a 32-bit bitmap with an empty AND mask; the alpha channel provides transparency.
pub fn build_ico(sizes: &[u32]) -> (out: Vec<u8>)
    requires
        forall|k: int| 0 <= k < sizes@.len() ==> icon_size_ok(#[trigger] sizes@[k] as int),
        ico_header_len(sizes@.len() as int) + images_len(sizes@) <= u32::MAX,
    ensures
        out@ == ico_file(sizes@),
{
    let n = sizes.len();
    let ghost sz = sizes@;
    let mut images: Vec<Vec<u8>> = Vec::new();
    let mut k: usize = 0;
    while k < n
        invariant
            0 <= k <= n,
            n == sz.len(),
            sz == sizes@,
            forall|m: int| 0 <= m < sz.len() ==> icon_size_ok(#[trigger] sz[m] as int),
            images@.len() == k,
            forall|m: int| 0 <= m < k ==> (#[trigger] images@[m])@ == icon_bmp(sz[m] as int),
        decreases n - k,
    {
        let s = sizes[k];
        assert(icon_size_ok(sz[k as int] as int));
        assert(s <= 23170) by (nonlinear_arith)
            requires s * s * 4 <= i32::MAX;
        assert(bmp_len(s as int, s as int) <= u32::MAX) by (nonlinear_arith)
            requires s <= 23170;
        let rgba = render_rgba(s);
        images.push(encode_bmp_for_ico(s, s, rgba.as_slice()));
        k = k + 1;
    }

    let count = n as u16;
    assert(count == n % 0x1_0000) by (bit_vector)
        requires count == n as u16;
    let header_len: u32 = 6 + 16 * count as u32;
    proof {
        lemma_images_len_nonneg(sz);
    }
    let mut out: Vec<u8> = Vec::new();
    // ICONDIR
    push_u16_le(&mut out, 0); // reserved
    push_u16_le(&mut out, 1); // type = 1 (ICO)
    push_u16_le(&mut out, count);
    let ghost header = out@;

    // ICONDIRENTRY x count
    let mut offset = header_len;
    let mut k: usize = 0;
    while k < n
        invariant
            0 <= k <= n,
            n == sz.len(),
            sz == sizes@,
            images@.len() == n,
            forall|m: int| 0 <= m < n ==> (#[trigger] images@[m])@ == icon_bmp(sz[m] as int),
            header_len == ico_header_len(n as int),
            ico_header_len(n as int) + images_len(sz) <= u32::MAX,
            offset == header_len + images_len(sz.take(k as int)),
            out@ == header + ico_entries(sz.take(k as int), header_len as int),
        decreases n - k,
    {
        let s = sizes[k];
        let img_len = images[k].len();
        proof {
            assert(sz.take(k + 1).drop_last() =~= sz.take(k as int));
            lemma_bmp_for_ico_len(s as int, s as int, icon_image(s as int));
            lemma_images_len_prefix(sz, k + 1);
            lemma_images_len_nonneg(sz.take(k as int));
        }
        push_entry(&mut out, s, img_len as u32, offset);
        offset += img_len as u32;
        proof {
            assert(out@ =~= header + ico_entries(sz.take(k + 1), header_len as int));
        }
        k = k + 1;
    }
    assert(sz.take(n as int) =~= sz);
    let ghost with_entries = out@;
    let mut k: usize = 0;
    while k < n
        invariant
            0 <= k <= n,
            n == sz.len(),
            sz == sizes@,
            images@.len() == n,
            forall|m: int| 0 <= m < n ==> (#[trigger] images@[m])@ == icon_bmp(sz[m] as int),
            out@ == with_entries + ico_images(sz.take(k as int)),
        decreases n - k,
    {
        out.extend_from_slice(images[k].as_slice());
        proof {
            assert(sz.take(k + 1).drop_last() =~= sz.take(k as int));
            assert(out@ =~= with_entries + ico_images(sz.take(k + 1)));
        }
        k = k + 1;
    }
    proof {
        assert(out@ =~= ico_file(sz));
    }
    out
}

} // verus!
