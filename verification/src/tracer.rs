//! Tracing the outlines of dark regions in a grey-scale bitmap.
use vstd::prelude::*;

verus! {

/// A grey-scale bitmap, row by row, one byte per pixel.
pub struct Bitmap {
    pub width: u32,
    pub height: u32,
    pub pixels: Vec<u8>,
}

impl Bitmap {
    /// One byte for each pixel.
    pub open spec fn wf(&self) -> bool {
        self.pixels@.len() == self.width * self.height
    }

    /// The value of the pixel at column `x`, row `y`.
    pub open spec fn pixel(&self, x: int, y: int) -> u8 {
        self.pixels@[y * self.width + x]
    }

    /// A bitmap of the given size with every pixel set to `value`.
    pub fn from_pixel(width: u32, height: u32, value: u8) -> (b: Bitmap)
        requires
            width * height <= usize::MAX,
        ensures
            b.wf(),
            b.width == width && b.height == height,
            forall|i: int| 0 <= i < b.pixels@.len() ==> #[trigger] b.pixels@[i] == value,
    {
        let n = width as usize * height as usize;
        let mut pixels: Vec<u8> = Vec::new();
        let mut i: usize = 0;
        while i < n
            invariant
                i <= n,
                pixels@.len() == i,
                forall|j: int| 0 <= j < i ==> #[trigger] pixels@[j] == value,
            decreases n - i,
        {
            pixels.push(value);
            i += 1;
        }
        Bitmap { width, height, pixels }
    }

    /// The pixel at column `x`, row `y`.
    pub fn get_pixel(&self, x: u32, y: u32) -> (v: u8)
        requires
            self.wf(),
            x < self.width,
            y < self.height,
        ensures
            v == self.pixel(x as int, y as int),
    {
        let plen = self.pixels.len();
        proof {
            lemma_index_in_bounds(x as int, y as int, self.width as int, self.height as int);
        }
        self.pixels[y as usize * self.width as usize + x as usize]
    }

    /// Sets the pixel at column `x`, row `y`.
    pub fn put_pixel(&mut self, x: u32, y: u32, v: u8)
        requires
            old(self).wf(),
            x < old(self).width,
            y < old(self).height,
        ensures
            final(self).wf(),
            final(self).width == old(self).width,
            final(self).height == old(self).height,
            final(self).pixels@ == old(self).pixels@.update(y * old(self).width + x, v),
    {
        let plen = self.pixels.len();
        proof {
            lemma_index_in_bounds(x as int, y as int, self.width as int, self.height as int);
        }
        let i = y as usize * self.width as usize + x as usize;
        self.pixels.set(i, v);
    }
}

proof fn lemma_index_in_bounds(x: int, y: int, w: int, h: int)
    requires
        0 <= x < w,
        0 <= y < h,
    ensures
        0 <= y * w + x < w * h,
{
    assert(y * w + x < w * h) by (nonlinear_arith)
        requires
            0 <= x < w,
            0 <= y < h,
    ;
    assert(0 <= y * w) by (nonlinear_arith)
        requires
            0 <= y,
            0 <= w,
    ;
}

/// How far the tracer scans along a side of `d` pixels: the length taken
/// as a 16-bit signed number, and nothing when that is negative.
pub open spec fn extent(d: u32) -> int {
    if d % 65536 < 32768 {
        (d % 65536) as int
    } else {
        0
    }
}

pub proof fn lemma_extent(d: u32)
    ensures
        0 <= extent(d) <= d,
        extent(d) <= 0x7FFF,
        d <= 0x7FFF ==> extent(d) == d,
{
}

/// The scanned extent of a side, as `as i16` gives it.
fn side_extent(d: u32) -> (r: i16)
    ensures
        r == extent(d),
{
    let t = d % 65536;
    if t < 32768 {
        t as i16
    } else {
        0
    }
}

/// The pixel at `(x, y)` lies in the scanned part of the image and is
/// darker than the threshold.
pub open spec fn dark(img: Bitmap, x: int, y: int, threshold: u8) -> bool {
    0 <= x < extent(img.width) && 0 <= y < extent(img.height) && img.pixel(x, y) < threshold
}

/// Every point of the contour is a dark pixel.
pub open spec fn all_dark(img: Bitmap, c: Seq<(i16, i16)>, threshold: u8) -> bool {
    forall|i: int| 0 <= i < c.len() ==> dark(img, (#[trigger] c[i]).0 as int, c[i].1 as int, threshold)
}

/// Of the four turns tried in order (right, straight on, left, back), the
/// turn numbered `t`, as quarter turns clockwise.
pub open spec fn turn_of(t: int) -> int {
    if t == 0 {
        3
    } else if t == 1 {
        0
    } else if t == 2 {
        1
    } else {
        2
    }
}

/// The step for direction `d`: 0 right, 1 down, 2 left, 3 up.
pub open spec fn step_of(d: int) -> (int, int) {
    if d == 0 {
        (1, 0)
    } else if d == 1 {
        (0, 1)
    } else if d == 2 {
        (-1, 0)
    } else {
        (0, -1)
    }
}

/// The first move from `(x, y)` heading `dir` that lands on a dark pixel,
/// trying the turns from the `t`-th on: the new position and heading.
pub open spec fn next_move(img: Bitmap, threshold: u8, x: int, y: int, dir: int, t: int) -> Option<
    (int, int, int),
>
    decreases 4 - t,
{
    if t >= 4 {
        None
    } else {
        let nd = (dir + turn_of(t)) % 4;
        let nx = x + step_of(nd).0;
        let ny = y + step_of(nd).1;
        if dark(img, nx, ny, threshold) {
            Some((nx, ny, nd))
        } else {
            next_move(img, threshold, x, y, dir, t + 1)
        }
    }
}

/// The points visited from `(x, y)` heading `dir`, at most `k` of them:
/// the walk stops where no move is possible or when it comes back to the
/// start `(sx, sy)`.
pub open spec fn walk(
    img: Bitmap,
    threshold: u8,
    sx: int,
    sy: int,
    x: int,
    y: int,
    dir: int,
    k: nat,
) -> Seq<(int, int)>
    decreases k,
{
    if k == 0 {
        Seq::empty()
    } else {
        seq![(x, y)] + match next_move(img, threshold, x, y, dir, 0) {
            None => Seq::empty(),
            Some(m) => if m.0 == sx && m.1 == sy {
                Seq::empty()
            } else {
                walk(img, threshold, sx, sy, m.0, m.1, m.2, (k - 1) as nat)
            },
        }
    }
}

/// The boundary traced from the dark pixel `(sx, sy)`: at most 10000
/// points.
pub open spec fn boundary(img: Bitmap, threshold: u8, sx: int, sy: int) -> Seq<(int, int)> {
    walk(img, threshold, sx, sy, sx, sy, 0, 10000)
}

/// The points of a contour as integer pairs.
pub open spec fn pts(c: Seq<(i16, i16)>) -> Seq<(int, int)> {
    Seq::new(c.len(), |i: int| (c[i].0 as int, c[i].1 as int))
}

/// `vis` with the pixel of every point of `c` marked, in a row-major
/// bitmap `w` pixels wide (a point outside `vis` marks nothing).
pub open spec fn mark(vis: Seq<bool>, c: Seq<(int, int)>, w: int) -> Seq<bool>
    decreases c.len(),
{
    if c.len() == 0 {
        vis
    } else {
        let p = c.last();
        let m = mark(vis, c.drop_last(), w);
        if 0 <= p.1 * w + p.0 < m.len() {
            m.update(p.1 * w + p.0, true)
        } else {
            m
        }
    }
}

/// The length of a marked bitmap does not change.
pub proof fn lemma_mark_len(vis: Seq<bool>, c: Seq<(int, int)>, w: int)
    ensures
        mark(vis, c, w).len() == vis.len(),
    decreases c.len(),
{
    if c.len() > 0 {
        lemma_mark_len(vis, c.drop_last(), w);
    }
}

/// A walk from a dark pixel visits only dark pixels.
pub proof fn lemma_walk_dark(
    img: Bitmap,
    threshold: u8,
    sx: int,
    sy: int,
    x: int,
    y: int,
    dir: int,
    k: nat,
)
    requires
        dark(img, x, y, threshold),
    ensures
        forall|i: int|
            0 <= i < walk(img, threshold, sx, sy, x, y, dir, k).len() ==> dark(
                img,
                (#[trigger] walk(img, threshold, sx, sy, x, y, dir, k)[i]).0,
                walk(img, threshold, sx, sy, x, y, dir, k)[i].1,
                threshold,
            ),
    decreases k,
{
    if k > 0 {
        lemma_next_move_dark(img, threshold, x, y, dir, 0);
        match next_move(img, threshold, x, y, dir, 0) {
            None => {},
            Some(m) => {
                if !(m.0 == sx && m.1 == sy) {
                    lemma_walk_dark(img, threshold, sx, sy, m.0, m.1, m.2, (k - 1) as nat);
                    let rest = walk(img, threshold, sx, sy, m.0, m.1, m.2, (k - 1) as nat);
                    let whole = walk(img, threshold, sx, sy, x, y, dir, k);
                    assert forall|i: int| 1 <= i < whole.len() implies #[trigger] whole[i] == rest[i
                        - 1] by {}
                }
            },
        }
    }
}

/// A move found lands on a dark pixel.
pub proof fn lemma_next_move_dark(img: Bitmap, threshold: u8, x: int, y: int, dir: int, t: int)
    ensures
        next_move(img, threshold, x, y, dir, t) matches Some(m) ==> dark(img, m.0, m.1, threshold),
    decreases 4 - t,
{
    if t < 4 {
        lemma_next_move_dark(img, threshold, x, y, dir, t + 1);
    }
}

/// The direction changes at `curr` between the steps from `prev` and to
/// `next`.
pub open spec fn turns(prev: (int, int), curr: (int, int), next: (int, int)) -> bool {
    (curr.0 - prev.0) * (next.1 - curr.1) != (curr.1 - prev.1) * (next.0 - curr.0)
}

/// `acc` followed by the points of `c` from the `i`-th up to the one
/// before the last where the direction changes, each compared with the
/// last point kept.
pub open spec fn keep_turns(c: Seq<(int, int)>, i: int, acc: Seq<(int, int)>) -> Seq<(int, int)>
    decreases c.len() - i,
{
    if i >= c.len() - 1 {
        acc
    } else {
        let next_acc = if turns(acc.last(), c[i], c[i + 1]) {
            acc.push(c[i])
        } else {
            acc
        };
        keep_turns(c, i + 1, next_acc)
    }
}

/// The first point, the turning points, the last point, and the first
/// point again if the last is not it.
pub open spec fn simplified(c: Seq<(int, int)>) -> Seq<(int, int)> {
    let r = keep_turns(c, 1, seq![c[0]]).push(c.last());
    if r.len() > 1 && r[0] != r.last() {
        r.push(r[0])
    } else {
        r
    }
}

/// The contours found scanning the pixels row by row from `(x, y)` on,
/// with the pixels marked in `vis` already visited: a boundary is traced
/// from each unvisited dark pixel with no dark pixel above it, and kept,
/// simplified, when it has at least three points.
pub open spec fn scan(img: Bitmap, threshold: u8, x: int, y: int, vis: Seq<bool>) -> Seq<
    Seq<(int, int)>,
>
    decreases extent(img.height) - y, extent(img.width) - x,
{
    if y >= extent(img.height) {
        Seq::empty()
    } else if x >= extent(img.width) {
        scan(img, threshold, 0, y + 1, vis)
    } else if dark(img, x, y, threshold) && !vis[y * img.width + x] && !dark(
        img,
        x,
        y - 1,
        threshold,
    ) {
        let c = boundary(img, threshold, x, y);
        let rest = scan(img, threshold, x + 1, y, mark(vis, c, img.width as int));
        if c.len() >= 3 {
            seq![simplified(c)] + rest
        } else {
            rest
        }
    } else {
        scan(img, threshold, x + 1, y, vis)
    }
}

/// The contours of an image: none when it is empty, else the scan from
/// the first pixel with nothing visited.
pub open spec fn traced(img: Bitmap, threshold: u8) -> Seq<Seq<(int, int)>> {
    if extent(img.width) == 0 || extent(img.height) == 0 {
        Seq::empty()
    } else {
        scan(img, threshold, 0, 0, Seq::new((img.width * img.height) as nat, |i: int| false))
    }
}

/// The points of each contour as integer pairs.
pub open spec fn all_pts(v: Seq<Vec<(i16, i16)>>) -> Seq<Seq<(int, int)>> {
    Seq::new(v.len(), |i: int| pts(v[i]@))
}

fn is_inside(img: &Bitmap, x: i16, y: i16, threshold: u8) -> (r: bool)
    requires
        img.wf(),
    ensures
        r == dark(*img, x as int, y as int, threshold),
{
    let w = side_extent(img.width);
    let h = side_extent(img.height);
    if x < 0 || y < 0 || x >= w || y >= h {
        false
    } else {
        proof {
            lemma_extent(img.width);
            lemma_extent(img.height);
        }
        img.get_pixel(x as u32, y as u32) < threshold
    }
}

/// Follows the boundary of the region that starts at a dark pixel,
/// turning right whenever it can, for at most 10000 steps, and marks each
/// pixel it visits; a contour of fewer than three points is none.
fn follow_boundary(
    img: &Bitmap,
    threshold: u8,
    start_x: i16,
    start_y: i16,
    visited: &mut Vec<bool>,
) -> (r: Option<Vec<(i16, i16)>>)
    requires
        img.wf(),
        dark(*img, start_x as int, start_y as int, threshold),
        old(visited)@.len() == img.width * img.height,
    ensures
        final(visited)@ == mark(
            old(visited)@,
            boundary(*img, threshold, start_x as int, start_y as int),
            img.width as int,
        ),
        match r {
            Some(c) => pts(c@) == boundary(*img, threshold, start_x as int, start_y as int)
                && c@.len() >= 3,
            None => boundary(*img, threshold, start_x as int, start_y as int).len() < 3,
        },
{
    let ghost whole = boundary(*img, threshold, start_x as int, start_y as int);
    let ghost vis0 = visited@;
    let w = img.width as usize;
    let mut contour: Vec<(i16, i16)> = Vec::new();
    let mut x = start_x;
    let mut y = start_y;
    let mut dir: usize = 0;
    let mut steps: usize = 0;
    while steps < 10000
        invariant_except_break
            steps <= 10000,
            pts(contour@) + walk(
                *img,
                threshold,
                start_x as int,
                start_y as int,
                x as int,
                y as int,
                dir as int,
                (10000 - steps) as nat,
            ) == whole,
        invariant
            img.wf(),
                w == img.width,
            visited@.len() == img.width * img.height,
            dark(*img, x as int, y as int, threshold),
            dir < 4,
            whole == boundary(*img, threshold, start_x as int, start_y as int),
            visited@ == mark(vis0, pts(contour@), img.width as int),
            vis0.len() == img.width * img.height,
        ensures
            pts(contour@) == whole,
        decreases 10000 - steps,
    {
        let vlen = visited.len();
        proof {
            lemma_index_in_bounds(x as int, y as int, img.width as int, img.height as int);
        }
        let ghost c0 = contour@;
        visited.set(y as usize * w + x as usize, true);
        contour.push((x, y));
        proof {
            assert(pts(contour@).drop_last() =~= pts(c0));
            assert(visited@ == mark(vis0, pts(contour@), img.width as int));
        }
        let ghost (x0, y0, d0) = (x as int, y as int, dir as int);
        let mut moved = false;
        let mut t: usize = 0;
        while t < 4
            invariant_except_break
                t <= 4,
                !moved,
                x == x0 && y == y0 && dir == d0,
                next_move(*img, threshold, x0, y0, d0, t as int) == next_move(
                    *img,
                    threshold,
                    x0,
                    y0,
                    d0,
                    0,
                ),
            invariant
                img.wf(),
                        dark(*img, x as int, y as int, threshold),
                dir < 4,
                0 <= d0 < 4,
            ensures
                moved ==> next_move(*img, threshold, x0, y0, d0, 0) == Some(
                    (x as int, y as int, dir as int),
                ),
                !moved ==> next_move(*img, threshold, x0, y0, d0, 0) is None,
            decreases 4 - t,
        {
            let turn: usize = if t == 0 {
                3
            } else if t == 1 {
                0
            } else if t == 2 {
                1
            } else {
                2
            };
            let new_dir = (dir + turn) % 4;
            let (dx, dy): (i16, i16) = if new_dir == 0 {
                (1, 0)
            } else if new_dir == 1 {
                (0, 1)
            } else if new_dir == 2 {
                (-1, 0)
            } else {
                (0, -1)
            };
            assert(step_of(new_dir as int) == (dx as int, dy as int));
            let nx = x + dx;
            let ny = y + dy;
            if is_inside(img, nx, ny, threshold) {
                x = nx;
                y = ny;
                dir = new_dir;
                moved = true;
                break;
            }
            t += 1;
        }
        if !moved {
            proof {
                assert(pts(contour@) =~= pts(c0) + seq![(x0, y0)]);
            }
            break;
        }
        if x == start_x && y == start_y {
            proof {
                assert(pts(contour@) =~= pts(c0) + seq![(x0, y0)]);
            }
            break;
        }
        proof {
            assert(pts(contour@) =~= pts(c0) + seq![(x0, y0)]);
            assert(pts(contour@) + walk(
                *img,
                threshold,
                start_x as int,
                start_y as int,
                x as int,
                y as int,
                dir as int,
                (10000 - steps - 1) as nat,
            ) =~= whole);
        }
        steps += 1;
    }
    proof {
        assert(pts(contour@).len() == contour@.len());
    }
    if contour.len() < 3 {
        None
    } else {
        Some(contour)
    }
}

/// Drops the points where the direction does not change, keeps the first
/// and last, and closes the contour.
fn simplify_contour(contour: Vec<(i16, i16)>, Ghost(img): Ghost<Bitmap>, threshold: u8) -> (r: Vec<
    (i16, i16),
>)
    requires
        contour@.len() >= 3,
        all_dark(img, contour@, threshold),
    ensures
        pts(r@) == simplified(pts(contour@)),
        r@.len() >= 2,
        r@[0] == r@[r@.len() - 1],
        all_dark(img, r@, threshold),
{
    let ghost pc = pts(contour@);
    let n = contour.len();
    let mut result: Vec<(i16, i16)> = Vec::new();
    result.push(contour[0]);
    proof {
        assert(pts(result@) =~= seq![pc[0]]);
    }
    let mut i: usize = 1;
    while i < n - 1
        invariant
            n == contour@.len(),
            n >= 3,
            pc == pts(contour@),
            1 <= i <= n - 1,
            result@.len() >= 1,
            result@[0] == contour@[0],
            all_dark(img, contour@, threshold),
            all_dark(img, result@, threshold),
                keep_turns(pc, i as int, pts(result@)) == keep_turns(pc, 1, seq![pc[0]]),
        decreases n - 1 - i,
    {
        let prev = result[result.len() - 1];
        let curr = contour[i];
        let next = contour[i + 1];
        proof {
            assert(dark(img, prev.0 as int, prev.1 as int, threshold));
            assert(dark(img, contour@[i as int].0 as int, contour@[i as int].1 as int, threshold));
            assert(dark(img, contour@[i + 1].0 as int, contour@[i + 1].1 as int, threshold));
        }
        assert(0 <= prev.0 <= 0x7FFF && 0 <= prev.1 <= 0x7FFF);
        assert(0 <= curr.0 <= 0x7FFF && 0 <= curr.1 <= 0x7FFF);
        assert(0 <= next.0 <= 0x7FFF && 0 <= next.1 <= 0x7FFF);
        let dx1 = curr.0 as i32 - prev.0 as i32;
        let dy1 = curr.1 as i32 - prev.1 as i32;
        let dx2 = next.0 as i32 - curr.0 as i32;
        let dy2 = next.1 as i32 - curr.1 as i32;
        assert(-0x7FFF <= dx1 <= 0x7FFF && -0x7FFF <= dy2 <= 0x7FFF);
        assert(-0x7FFF <= dy1 <= 0x7FFF && -0x7FFF <= dx2 <= 0x7FFF);
        assert(-0x4000_0000 <= dx1 * dy2 <= 0x4000_0000) by (nonlinear_arith)
            requires
                -0x7FFF <= dx1 <= 0x7FFF,
                -0x7FFF <= dy2 <= 0x7FFF,
        ;
        assert(-0x4000_0000 <= dy1 * dx2 <= 0x4000_0000) by (nonlinear_arith)
            requires
                -0x7FFF <= dy1 <= 0x7FFF,
                -0x7FFF <= dx2 <= 0x7FFF,
        ;
        let a: i64 = dx1 as i64 * dy2 as i64;
        let b: i64 = dy1 as i64 * dx2 as i64;
        let ghost acc = pts(result@);
        proof {
            assert(acc.last() == (prev.0 as int, prev.1 as int));
            assert(pc[i as int] == (curr.0 as int, curr.1 as int));
            assert(pc[i + 1] == (next.0 as int, next.1 as int));
            assert((a != b) == turns(acc.last(), pc[i as int], pc[i + 1]));
        }
        if a != b {
            result.push(curr);
            proof {
                assert(pts(result@) =~= acc.push(pc[i as int]));
            }
        }
        i += 1;
    }
    let ghost kept = pts(result@);
    result.push(contour[n - 1]);
    proof {
        assert(pts(result@) =~= kept.push(pc.last()));
    }
    let first = result[0];
    let last = result[result.len() - 1];
    let ghost before_close = pts(result@);
    if result.len() > 1 && !(first.0 == last.0 && first.1 == last.1) {
        result.push(first);
        proof {
            assert(pts(result@) =~= before_close.push(before_close[0]));
        }
    }
    result
}

/// The outlines of the dark regions of an image (pixels below the
/// threshold), as `traced` describes them: each a closed list of dark
/// pixels, first point repeated at the end. Each side is scanned as far as
/// its length taken as a 16-bit signed number reaches, as the outline
/// coordinates are 16-bit.
pub fn trace_image(img: &Bitmap, threshold: u8) -> (r: Vec<Vec<(i16, i16)>>)
    requires
        img.wf(),
    ensures
        all_pts(r@) == traced(*img, threshold),
        forall|i: int|
            0 <= i < r@.len() ==> (#[trigger] r@[i])@.len() >= 2 && r@[i]@[0] == r@[i]@[r@[i]@.len()
                - 1] && all_dark(*img, r@[i]@, threshold),
{
    let width = side_extent(img.width);
    let height = side_extent(img.height);
    proof {
        lemma_extent(img.width);
        lemma_extent(img.height);
    }
    let mut out: Vec<Vec<(i16, i16)>> = Vec::new();
    if width == 0 || height == 0 {
        proof {
            assert(all_pts(out@) =~= traced(*img, threshold));
        }
        return out;
    }
    let plen = img.pixels.len();
    let n = img.width as usize * img.height as usize;
    let mut visited: Vec<bool> = Vec::new();
    let mut k: usize = 0;
    while k < n
        invariant
            k <= n,
            visited@.len() == k,
            forall|j: int| 0 <= j < k ==> !(#[trigger] visited@[j]),
        decreases n - k,
    {
        visited.push(false);
        k += 1;
    }
    let ghost all = traced(*img, threshold);
    proof {
        assert(visited@ =~= Seq::new((img.width * img.height) as nat, |i: int| false));
        assert(all_pts(out@) + scan(*img, threshold, 0, 0, visited@) =~= all);
    }
    let w = img.width as usize;
    let mut y: i16 = 0;
    while y < height
        invariant
            img.wf(),
                width == extent(img.width) && height == extent(img.height),
            extent(img.width) <= img.width && extent(img.height) <= img.height,
            w == img.width,
            0 <= y <= height,
            visited@.len() == img.width * img.height,
            all_pts(out@) + scan(*img, threshold, 0, y as int, visited@) == all,
            forall|i: int|
                0 <= i < out@.len() ==> (#[trigger] out@[i])@.len() >= 2 && out@[i]@[0]
                    == out@[i]@[out@[i]@.len() - 1] && all_dark(*img, out@[i]@, threshold),
        decreases height - y,
    {
        let mut x: i16 = 0;
        while x < width
            invariant
                img.wf(),
                        width == extent(img.width) && height == extent(img.height),
            extent(img.width) <= img.width && extent(img.height) <= img.height,
                w == img.width,
                0 <= y < height,
                0 <= x <= width,
                visited@.len() == img.width * img.height,
                all_pts(out@) + scan(*img, threshold, x as int, y as int, visited@) == all,
                forall|i: int|
                    0 <= i < out@.len() ==> (#[trigger] out@[i])@.len() >= 2 && out@[i]@[0]
                        == out@[i]@[out@[i]@.len() - 1] && all_dark(*img, out@[i]@, threshold),
            decreases width - x,
        {
            let vlen = visited.len();
            proof {
                lemma_index_in_bounds(x as int, y as int, img.width as int, img.height as int);
            }
            let ghost vis = visited@;
            let ghost prefix = all_pts(out@);
            if is_inside(img, x, y, threshold) && !visited[y as usize * w + x as usize] {
                if !is_inside(img, x, y - 1, threshold) || y == 0 {
                    let ghost c = boundary(*img, threshold, x as int, y as int);
                    proof {
                        lemma_walk_dark(*img, threshold, x as int, y as int, x as int, y as int, 0, 10000);
                        lemma_mark_len(vis, c, img.width as int);
                    }
                    match follow_boundary(img, threshold, x, y, &mut visited) {
                        Some(cv) => {
                            proof {
                                assert forall|i: int| 0 <= i < cv@.len() implies dark(
                                    *img,
                                    (#[trigger] cv@[i]).0 as int,
                                    cv@[i].1 as int,
                                    threshold,
                                ) by {
                                    assert(pts(cv@)[i] == c[i]);
                                }
                            }
                            let s = simplify_contour(cv, Ghost(*img), threshold);
                            let ghost old_out = out@;
                            out.push(s);
                            proof {
                                assert(all_pts(out@) =~= prefix + seq![simplified(c)]);
                                assert forall|i: int| 0 <= i < out@.len() implies (#[trigger] out@[i])@.len()
                                    >= 2 && out@[i]@[0] == out@[i]@[out@[i]@.len() - 1] && all_dark(
                                    *img,
                                    out@[i]@,
                                    threshold,
                                ) by {
                                    if i < old_out.len() {
                                        assert(out@[i] == old_out[i]);
                                    }
                                }
                            }
                        },
                        None => {},
                    }
                }
            }
            proof {
                assert(all_pts(out@) + scan(*img, threshold, x + 1, y as int, visited@) =~= all);
            }
            x += 1;
        }
        proof {
            assert(all_pts(out@) + scan(*img, threshold, 0, y + 1, visited@) =~= all);
        }
        y += 1;
    }
    proof {
        assert(all_pts(out@) =~= all);
    }
    out
}

/// One rectangular contour the size of the image: (0, 0), (w, 0), (w, h),
/// (0, h), back to (0, 0).
pub fn image_to_rectangle_glyph(img: &Bitmap) -> (r: Vec<Vec<(i16, i16)>>)
    ensures
        r@.len() == 1,
        r@[0]@ == seq![
            (0i16, 0i16),
            (img.width as i16, 0i16),
            (img.width as i16, img.height as i16),
            (0i16, img.height as i16),
            (0i16, 0i16),
        ],
{
    let w = img.width as i16;
    let h = img.height as i16;
    let c = vec![(0, 0), (w, 0), (w, h), (0, h), (0, 0)];
    let r = vec![c];
    proof {
        assert(r@[0]@ =~= seq![(0i16, 0i16), (w, 0i16), (w, h), (0i16, h), (0i16, 0i16)]);
    }
    r
}

} // verus!
