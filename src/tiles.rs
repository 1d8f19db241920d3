//! The tile scheduler: the image is cut into rectangular buckets, which are handed
//! out centre first and rendered independently, then put together in row-major
//! order as 8-bit RGBA pixels.
use vstd::prelude::*;
use vstd::arithmetic::div_mod::lemma_fundamental_div_mod_converse;

verus! {

/// A rectangle of pixels: its top-left corner and its size.
#[derive(Clone, Copy, Debug, PartialEq, Eq, Structural)]
pub struct Rect {
    pub x: u32,
    pub y: u32,
    pub width: u32,
    pub height: u32,
}

/// Where a bucket stands in its life.
#[derive(Clone, Copy, Debug, PartialEq, Eq, Structural)]
pub enum BucketState {
    NotProcessed,
    StartProcessing,
    Visualized,
    NotVisualized,
    EndProcessing,
    Done,
}

/// One 8-bit RGBA pixel.
#[derive(Clone, Copy, Debug, PartialEq, Eq, Structural)]
pub struct Rgba {
    pub r: u8,
    pub g: u8,
    pub b: u8,
    pub a: u8,
}

/// Opaque black: the pixel of a fresh bucket, and of a ray that hits nothing.
pub open spec fn black() -> Rgba {
    Rgba { r: 0, g: 0, b: 0, a: 255 }
}

impl Rgba {
    pub fn black() -> (r: Rgba)
        ensures
            r == black(),
    {
        Rgba { r: 0, g: 0, b: 0, a: 255 }
    }

    /// Channel `c` of the pixel, in the order R, G, B, A.
    pub open spec fn channel(self, c: int) -> u8 {
        if c == 0 {
            self.r
        } else if c == 1 {
            self.g
        } else if c == 2 {
            self.b
        } else {
            self.a
        }
    }
}

/// A rectangle of the image with the pixels rendered for it, row by row.
#[derive(Debug)]
pub struct Bucket {
    pub rect: Rect,
    pub state: BucketState,
    pub buffer: Option<Vec<Rgba>>,
}

/// The place of pixel `(x, y)` of a rectangle `width` pixels wide in its row-major buffer.
pub open spec fn slot(width: u32, x: usize, y: usize) -> int {
    y * width + x
}

impl Bucket {
    /// A bucket not yet processed, all of its pixels black.
    pub open spec fn is_fresh(&self, rect: Rect) -> bool {
        &&& self.rect == rect
        &&& self.state == BucketState::NotProcessed
        &&& self.buffer is Some
        &&& self.buffer->Some_0@ == Seq::new(
            (rect.width * rect.height) as nat,
            |i: int| black(),
        )
    }

    pub fn new(rect: Rect) -> (r: Bucket)
        ensures
            r.is_fresh(rect),
    {
        assert((rect.width as int) * (rect.height as int) <= 0xFFFF_FFFF * 0xFFFF_FFFF) by (nonlinear_arith)
            requires
                rect.width <= 0xFFFF_FFFFu32,
                rect.height <= 0xFFFF_FFFFu32,
        ;
        let n = rect.width as u64 * rect.height as u64;
        let mut buffer: Vec<Rgba> = Vec::new();
        let mut i: u64 = 0;
        while i < n
            invariant
                i <= n,
                buffer@ == Seq::new(i as nat, |j: int| black()),
            decreases n - i,
        {
            buffer.push(Rgba::black());
            i += 1;
            assert(buffer@ =~= Seq::new(i as nat, |j: int| black()));
        }
        Bucket { rect, state: BucketState::NotProcessed, buffer: Some(buffer) }
    }

    /// The pixel at `(x, y)` of the bucket, where the buffer has one.
    pub fn get_color(&self, x: usize, y: usize) -> (r: Option<Rgba>)
        requires
            slot(self.rect.width, x, y) <= usize::MAX,
        ensures
            r == match self.buffer {
                Some(v) => if slot(self.rect.width, x, y) < v@.len() {
                    Some(v@[slot(self.rect.width, x, y)])
                } else {
                    None
                },
                None => None,
            },
    {
        match &self.buffer {
            Some(v) => {
                let index = y * self.rect.width as usize + x;
                if index < v.len() {
                    Some(v[index])
                } else {
                    None
                }
            },
            None => None,
        }
    }

    /// Sets the pixel at `(x, y)`; a place outside the buffer is left alone.
    pub fn set_color(&mut self, x: usize, y: usize, color: Rgba)
        requires
            slot(old(self).rect.width, x, y) <= usize::MAX,
        ensures
            final(self).rect == old(self).rect,
            final(self).state == old(self).state,
            final(self).buffer is Some <==> old(self).buffer is Some,
            old(self).buffer is Some ==> ({
                let v = old(self).buffer->Some_0@;
                let i = slot(old(self).rect.width, x, y);
                final(self).buffer->Some_0@ == if i < v.len() {
                    v.update(i, color)
                } else {
                    v
                }
            }),
    {
        let index = y * self.rect.width as usize + x;
        match &mut self.buffer {
            Some(buf) => {
                if index < buf.len() {
                    buf.set(index, color);
                }
            },
            None => {},
        }
    }
}

/// `r` is the square root of `m`, rounded down.
pub open spec fn is_floor_sqrt(r: int, m: int) -> bool {
    r * r <= m < (r + 1) * (r + 1)
}

/// The square root of `m`, rounded down.
pub fn floor_sqrt(m: u64) -> (r: u64)
    ensures
        is_floor_sqrt(r as int, m as int),
        r < 0x1_0000_0000,
{
    let mut lo: u64 = 0;
    let mut hi: u64 = 0x1_0000_0000;
    assert(m < hi * hi) by (nonlinear_arith)
        requires
            hi == 0x1_0000_0000,
            m <= u64::MAX,
    ;
    while hi - lo > 1
        invariant
            lo < hi <= 0x1_0000_0000,
            lo * lo <= m,
            m < hi * hi,
        decreases hi - lo,
    {
        let mid = lo + (hi - lo) / 2;
        assert(mid * mid <= 0xFFFF_FFFF * 0xFFFF_FFFF) by (nonlinear_arith)
            requires
                mid < 0x1_0000_0000,
        ;
        if mid * mid <= m {
            lo = mid;
        } else {
            hi = mid;
        }
    }
    lo
}

/// The most buckets per side of a grid over a part of the image: three buckets per
/// core, and at least 16, make the wanted count; its square root, rounded down.
pub open spec fn side_for_cores(cpus: nat) -> int {
    let wanted: int = if 3 * cpus >= 16 { (3 * cpus) as int } else { 16 };
    let wanted: int = if wanted > u64::MAX { u64::MAX as int } else { wanted };
    choose|r: int| 0 <= r && is_floor_sqrt(r, wanted)
}

/// Buckets per side of the grid: `num_buckets`, or, for a rectangle narrower or
/// wider than the image, at most `side_for_cores(cpus)`.
pub open spec fn buckets_per_side_spec(width: u32, rect: Rect, num_buckets: u32, cpus: nat) -> u32 {
    if rect.width != width {
        if (num_buckets as int) <= side_for_cores(cpus) {
            num_buckets
        } else {
            side_for_cores(cpus) as u32
        }
    } else {
        num_buckets
    }
}

proof fn lemma_floor_sqrt_unique(a: int, b: int, m: int)
    requires
        0 <= a,
        0 <= b,
        is_floor_sqrt(a, m),
        is_floor_sqrt(b, m),
    ensures
        a == b,
{
    if a < b {
        assert((a + 1) * (a + 1) <= b * b) by (nonlinear_arith)
            requires
                0 <= a < b,
        ;
    } else if b < a {
        assert((b + 1) * (b + 1) <= a * a) by (nonlinear_arith)
            requires
                0 <= b < a,
        ;
    }
}

/// The number of buckets on each side of the grid, given the number of cores.
pub fn buckets_per_side(width: u32, rect: Rect, num_buckets: u32, cpus: usize) -> (r: u32)
    ensures
        r == buckets_per_side_spec(width, rect, num_buckets, cpus as nat),
        num_buckets >= 1 ==> r >= 1,
{
    if rect.width != width {
        let wanted = cpus as u64;
        let wanted = if wanted > u64::MAX / 3 { u64::MAX } else { wanted * 3 };
        let wanted = if wanted >= 16 { wanted } else { 16 };
        let side = floor_sqrt(wanted);
        proof {
            let w = if 3 * cpus >= 16 { 3 * cpus } else { 16 };
            let w = if w > u64::MAX { u64::MAX as int } else { w as int };
            assert(wanted as int == w);
            let c = side_for_cores(cpus as nat);
            assert(exists|r: int| 0 <= r && is_floor_sqrt(r, w));
            lemma_floor_sqrt_unique(c, side as int, w);
            if side < 4 {
                assert((side + 1) * (side + 1) <= 16) by (nonlinear_arith)
                    requires
                        side < 4,
                ;
            }
        }
        if (num_buckets as u64) <= side {
            num_buckets
        } else {
            side as u32
        }
    } else {
        num_buckets
    }
}

pub open spec fn step_of(len: u32, n: u32) -> u32 {
    if len / n >= 1 { (len / n) as u32 } else { 1 }
}

/// How many steps of `step` pixels it takes to cover `len` pixels.
pub open spec fn cells_across(len: u32, step: u32) -> int {
    (len + step - 1) / (step as int)
}

/// Bucket `(i, j)` of a grid over `rect` with steps `bw` by `bh`: the bucket in the
/// last column or the last row holds what is left of the rectangle there.
pub open spec fn grid_rect(rect: Rect, bw: u32, bh: u32, i: int, j: int) -> Rect {
    let dx = i * bw;
    let dy = j * bh;
    Rect {
        x: (rect.x + dx) as u32,
        y: (rect.y + dy) as u32,
        width: (if rect.width - dx < bw { rect.width - dx } else { bw as int }) as u32,
        height: (if rect.height - dy < bh { rect.height - dy } else { bh as int }) as u32,
    }
}

/// Pixel `(px, py)` lies in `r`.
pub open spec fn holds_pixel(r: Rect, px: int, py: int) -> bool {
    r.x <= px < r.x + r.width && r.y <= py < r.y + r.height
}

/// `a` lies inside `b`.
pub open spec fn rect_within(a: Rect, b: Rect) -> bool {
    b.x <= a.x && a.x + a.width <= b.x + b.width && b.y <= a.y && a.y + a.height <= b.y + b.height
}

/// `a` and `b` share no pixel.
pub open spec fn rects_disjoint(a: Rect, b: Rect) -> bool {
    a.x + a.width <= b.x || b.x + b.width <= a.x || a.y + a.height <= b.y || b.y + b.height <= a.y
}

/// `s` holds the tiles of a grid `nx` by `ny` in the order of `bucket_sequence`:
/// each once, center first, ring by ring (see `spiral_order`).
pub open spec fn is_center_out(s: Seq<(u32, u32)>, nx: u32, ny: u32) -> bool {
    &&& forall|i: int| 0 <= i < s.len() ==> (#[trigger] s[i]).0 < nx && s[i].1 < ny
    &&& forall|i: int, j: int|
        0 <= i < j < s.len() ==> spiral_order((nx / 2) as int, (ny / 2) as int, #[trigger] s[i], #[trigger] s[j])
    &&& forall|bx: u32, by: u32| bx < nx && by < ny ==> #[trigger] s.contains((bx, by))
}

/// What `bucket_grid(rect, num_x, num_y)` gives: buckets `max(1, width / num_x)` by
/// `max(1, height / num_y)` pixels, the last column and row holding the rest, handed
/// out center first (see `is_center_out`, over the grid's bucket coordinates); each
/// bucket fresh, inside `rect`, sharing no pixel with another, and every pixel of
/// `rect` in one of them.
pub open spec fn is_bucket_grid(r: Seq<Bucket>, rect: Rect, num_x: u32, num_y: u32) -> bool {
    let bw = step_of(rect.width, num_x);
    let bh = step_of(rect.height, num_y);
    let cols = cells_across(rect.width, bw) as u32;
    let rows = cells_across(rect.height, bh) as u32;
    &&& exists|s: Seq<(u32, u32)>|
        #![trigger is_center_out(s, cols, rows)]
        is_center_out(s, cols, rows) && s.len() == r.len() && forall|k: int|
            0 <= k < r.len() ==> (#[trigger] r[k]).is_fresh(grid_rect(rect, bw, bh, s[k].0 as int, s[k].1 as int))
    &&& forall|k: int| 0 <= k < r.len() ==> rect_within((#[trigger] r[k]).rect, rect)
    &&& forall|k: int, m: int|
        0 <= k < r.len() && 0 <= m < r.len() && k != m ==> rects_disjoint((#[trigger] r[k]).rect, (#[trigger] r[m]).rect)
    &&& forall|px: int, py: int|
        holds_pixel(rect, px, py) ==> exists|k: int| 0 <= k < r.len() && #[trigger] holds_pixel(r[k].rect, px, py)
}

proof fn lemma_cells_fit(len: u32, step: u32)
    requires
        step >= 1,
    ensures
        0 <= cells_across(len, step) <= len,
{
    let q = cells_across(len, step);
    let w = len as int;
    assert(q * step <= w + step - 1 && q >= 0) by (nonlinear_arith)
        requires
            q == (w + step - 1) / (step as int),
            step >= 1,
            w >= 0,
    ;
    assert(q <= w) by (nonlinear_arith)
        requires
            q * step <= w + step - 1,
            step >= 1,
            w >= 0,
            q >= 0,
    ;
}

/// Facts on bucket `(i, j)` of the grid: where it starts, and that it is not empty
/// and lies inside the rectangle.
proof fn lemma_grid_cell(rect: Rect, bw: u32, bh: u32, i: int, j: int)
    requires
        bw >= 1,
        bh >= 1,
        0 <= i < cells_across(rect.width, bw),
        0 <= j < cells_across(rect.height, bh),
        rect.x + rect.width <= u32::MAX,
        rect.y + rect.height <= u32::MAX,
    ensures
        0 <= i * bw < rect.width,
        0 <= j * bh < rect.height,
        grid_rect(rect, bw, bh, i, j).x == rect.x + i * bw,
        grid_rect(rect, bw, bh, i, j).y == rect.y + j * bh,
        1 <= grid_rect(rect, bw, bh, i, j).width <= bw,
        1 <= grid_rect(rect, bw, bh, i, j).height <= bh,
        rect_within(grid_rect(rect, bw, bh, i, j), rect),
{
    let q = cells_across(rect.width, bw);
    let w = rect.width as int;
    assert(q * bw <= w + bw - 1) by (nonlinear_arith)
        requires
            q == (w + bw - 1) / (bw as int),
            bw >= 1,
            w >= 0,
    ;
    assert(0 <= i * bw <= (q - 1) * bw) by (nonlinear_arith)
        requires
            0 <= i <= q - 1,
            bw >= 1,
    ;
    assert((q - 1) * bw == q * bw - bw) by (nonlinear_arith);
    let p = cells_across(rect.height, bh);
    let h = rect.height as int;
    assert(p * bh <= h + bh - 1) by (nonlinear_arith)
        requires
            p == (h + bh - 1) / (bh as int),
            bh >= 1,
            h >= 0,
    ;
    assert(0 <= j * bh <= (p - 1) * bh) by (nonlinear_arith)
        requires
            0 <= j <= p - 1,
            bh >= 1,
    ;
    assert((p - 1) * bh == p * bh - bh) by (nonlinear_arith);
}

/// Pixel `(px, py)` of the rectangle lies in bucket `((px - x) / bw, (py - y) / bh)`.
proof fn lemma_pixel_cell(rect: Rect, bw: u32, bh: u32, px: int, py: int)
    requires
        bw >= 1,
        bh >= 1,
        holds_pixel(rect, px, py),
        rect.x + rect.width <= u32::MAX,
        rect.y + rect.height <= u32::MAX,
    ensures
        0 <= (px - rect.x) / (bw as int) < cells_across(rect.width, bw),
        0 <= (py - rect.y) / (bh as int) < cells_across(rect.height, bh),
        holds_pixel(grid_rect(rect, bw, bh, (px - rect.x) / (bw as int), (py - rect.y) / (bh as int)), px, py),
{
    let dx = px - rect.x;
    let i = dx / (bw as int);
    let w = rect.width as int;
    let q = cells_across(rect.width, bw);
    assert(i * bw <= dx < i * bw + bw) by (nonlinear_arith)
        requires
            i == dx / (bw as int),
            dx >= 0,
            bw >= 1,
    ;
    assert(q * bw >= w) by (nonlinear_arith)
        requires
            q == (w + bw - 1) / (bw as int),
            bw >= 1,
            w >= 0,
    ;
    assert(0 <= i < q) by (nonlinear_arith)
        requires
            i * bw <= dx < w,
            q * bw >= w,
            dx >= 0,
            bw >= 1,
            i == dx / (bw as int),
    ;
    let dy = py - rect.y;
    let j = dy / (bh as int);
    let h = rect.height as int;
    let p = cells_across(rect.height, bh);
    assert(j * bh <= dy < j * bh + bh) by (nonlinear_arith)
        requires
            j == dy / (bh as int),
            dy >= 0,
            bh >= 1,
    ;
    assert(p * bh >= h) by (nonlinear_arith)
        requires
            p == (h + bh - 1) / (bh as int),
            bh >= 1,
            h >= 0,
    ;
    assert(0 <= j < p) by (nonlinear_arith)
        requires
            j * bh <= dy < h,
            p * bh >= h,
            dy >= 0,
            bh >= 1,
            j == dy / (bh as int),
    ;
    lemma_grid_cell(rect, bw, bh, i, j);
}

/// Two different buckets of the grid share no pixel.
proof fn lemma_cells_disjoint(rect: Rect, bw: u32, bh: u32, i1: int, j1: int, i2: int, j2: int)
    requires
        bw >= 1,
        bh >= 1,
        0 <= i1 < cells_across(rect.width, bw),
        0 <= j1 < cells_across(rect.height, bh),
        0 <= i2 < cells_across(rect.width, bw),
        0 <= j2 < cells_across(rect.height, bh),
        i1 != i2 || j1 != j2,
        rect.x + rect.width <= u32::MAX,
        rect.y + rect.height <= u32::MAX,
    ensures
        rects_disjoint(grid_rect(rect, bw, bh, i1, j1), grid_rect(rect, bw, bh, i2, j2)),
{
    lemma_grid_cell(rect, bw, bh, i1, j1);
    lemma_grid_cell(rect, bw, bh, i2, j2);
    if i1 < i2 {
        assert(i1 * bw + bw <= i2 * bw) by (nonlinear_arith)
            requires
                i1 < i2,
                bw >= 1,
        ;
    } else if i2 < i1 {
        assert(i2 * bw + bw <= i1 * bw) by (nonlinear_arith)
            requires
                i2 < i1,
                bw >= 1,
        ;
    } else if j1 < j2 {
        assert(j1 * bh + bh <= j2 * bh) by (nonlinear_arith)
            requires
                j1 < j2,
                bh >= 1,
        ;
    } else {
        assert(j2 * bh + bh <= j1 * bh) by (nonlinear_arith)
            requires
                j2 < j1,
                bh >= 1,
        ;
    }
}

/// Cuts `rect` into buckets about `num_x` by `num_y` to a side, handed out center
/// first (see `is_bucket_grid`).
pub fn bucket_grid(rect: Rect, num_x: u32, num_y: u32) -> (r: Vec<Bucket>)
    requires
        num_x >= 1,
        num_y >= 1,
        rect.x + rect.width <= u32::MAX,
        rect.y + rect.height <= u32::MAX,
    ensures
        is_bucket_grid(r@, rect, num_x, num_y),
{
    let bw = if rect.width / num_x >= 1 { rect.width / num_x } else { 1 };
    let bh = if rect.height / num_y >= 1 { rect.height / num_y } else { 1 };
    proof {
        lemma_cells_fit(rect.width, bw);
        lemma_cells_fit(rect.height, bh);
    }
    let cols = ((rect.width as u64 + bw as u64 - 1) / bw as u64) as u32;
    let rows = ((rect.height as u64 + bh as u64 - 1) / bh as u64) as u32;
    let order = bucket_sequence(cols, rows);
    let ghost s = order@;
    let mut buckets: Vec<Bucket> = Vec::new();
    let mut k: usize = 0;
    while k < order.len()
        invariant
            bw == step_of(rect.width, num_x),
            bh == step_of(rect.height, num_y),
            bw >= 1,
            bh >= 1,
            cols == cells_across(rect.width, bw),
            rows == cells_across(rect.height, bh),
            rect.x + rect.width <= u32::MAX,
            rect.y + rect.height <= u32::MAX,
            s == order@,
            is_center_out(s, cols, rows),
            k <= order.len(),
            buckets@.len() == k,
            forall|m: int|
                0 <= m < k ==> (#[trigger] buckets@[m]).is_fresh(grid_rect(rect, bw, bh, s[m].0 as int, s[m].1 as int)),
        decreases order.len() - k,
    {
        let (i, j) = order[k];
        proof {
            assert(s[k as int] == (i, j));
            lemma_grid_cell(rect, bw, bh, i as int, j as int);
        }
        let dx = i * bw;
        let dy = j * bh;
        let w = if rect.width - dx < bw { rect.width - dx } else { bw };
        let h = if rect.height - dy < bh { rect.height - dy } else { bh };
        let cell = Rect { x: rect.x + dx, y: rect.y + dy, width: w, height: h };
        assert(cell == grid_rect(rect, bw, bh, i as int, j as int));
        let ghost before = buckets@;
        buckets.push(Bucket::new(cell));
        proof {
            assert forall|m: int| 0 <= m < k + 1 implies (#[trigger] buckets@[m]).is_fresh(
                grid_rect(rect, bw, bh, s[m].0 as int, s[m].1 as int),
            ) by {
                if m < k {
                    assert(buckets@[m] == before[m]);
                }
            }
        }
        k += 1;
    }
    proof {
        let r = buckets@;
        assert forall|k: int| 0 <= k < r.len() implies rect_within((#[trigger] r[k]).rect, rect) by {
            assert(s[k].0 < cols && s[k].1 < rows);
            lemma_grid_cell(rect, bw, bh, s[k].0 as int, s[k].1 as int);
        }
        assert forall|k: int, m: int| 0 <= k < r.len() && 0 <= m < r.len() && k != m implies rects_disjoint(
            (#[trigger] r[k]).rect,
            (#[trigger] r[m]).rect,
        ) by {
            assert(s[k].0 < cols && s[k].1 < rows);
            assert(s[m].0 < cols && s[m].1 < rows);
            if k < m {
                assert(spiral_order((cols / 2) as int, (rows / 2) as int, s[k], s[m]));
            } else {
                assert(spiral_order((cols / 2) as int, (rows / 2) as int, s[m], s[k]));
            }
            assert(s[k] != s[m]);
            lemma_cells_disjoint(rect, bw, bh, s[k].0 as int, s[k].1 as int, s[m].0 as int, s[m].1 as int);
        }
        assert forall|px: int, py: int| holds_pixel(rect, px, py) implies exists|k: int|
            0 <= k < r.len() && #[trigger] holds_pixel(r[k].rect, px, py) by {
            lemma_pixel_cell(rect, bw, bh, px, py);
            let i = ((px - rect.x) / (bw as int)) as u32;
            let j = ((py - rect.y) / (bh as int)) as u32;
            assert(s.contains((i, j)));
            let k = choose|k: int| 0 <= k < s.len() && s[k] == (i, j);
            assert(holds_pixel(r[k].rect, px, py));
        }
        assert(is_center_out(s, cols, rows));
    }
    buckets
}

/// Relies on `num_cpus::get`: the number of CPUs available, at least 1.
#[verifier::external_body]
fn available_cpus() -> (r: usize)
    ensures
        r >= 1,
{
    num_cpus::get()
}

/// Cuts `rect`, a part of an image `width` by `height`, into buckets handed out
/// center first (see `bucket_grid`). A rectangle as wide as the image gets about
/// `num_buckets` buckets per side; another one at most as many per side as
/// `buckets_per_side` allows for the number of CPUs of this machine.
pub fn generate_buckets(width: u32, height: u32, rect: Rect, num_buckets: u32) -> (r: Vec<Bucket>)
    requires
        num_buckets >= 1,
        rect.x + rect.width <= u32::MAX,
        rect.y + rect.height <= u32::MAX,
    ensures
        exists|cpus: nat|
            #![trigger buckets_per_side_spec(width, rect, num_buckets, cpus)]
            cpus >= 1 && buckets_per_side_spec(width, rect, num_buckets, cpus) >= 1 && is_bucket_grid(
                r@,
                rect,
                buckets_per_side_spec(width, rect, num_buckets, cpus),
                buckets_per_side_spec(width, rect, num_buckets, cpus),
            ),
{
    let cpus = available_cpus();
    let n = buckets_per_side(width, rect, num_buckets, cpus);
    let r = bucket_grid(rect, n, n);
    assert(buckets_per_side_spec(width, rect, num_buckets, cpus as nat) == n);
    r
}

/// The side of a square tile of the renderer, in pixels.
pub const BUCKET_SIZE: u32 = 32;

/// How many tiles it takes to cover `len` pixels.
pub open spec fn tiles_across(len: u32) -> int {
    (len + BUCKET_SIZE - 1) / (BUCKET_SIZE as int)
}

/// Tile `(tx, ty)` of an image `width` by `height`: `BUCKET_SIZE` square, cut at
/// the right and bottom edges.
pub open spec fn tile_rect_spec(tx: int, ty: int, width: u32, height: u32) -> Rect {
    let x = tx * BUCKET_SIZE;
    let y = ty * BUCKET_SIZE;
    Rect {
        x: x as u32,
        y: y as u32,
        width: if width - x < BUCKET_SIZE { (width - x) as u32 } else { BUCKET_SIZE },
        height: if height - y < BUCKET_SIZE { (height - y) as u32 } else { BUCKET_SIZE },
    }
}

/// The number of tiles across and down an image.
pub fn tile_counts(width: u32, height: u32) -> (r: (u32, u32))
    ensures
        r.0 == tiles_across(width),
        r.1 == tiles_across(height),
{
    (((width as u64 + 31) / 32) as u32, ((height as u64 + 31) / 32) as u32)
}

/// A tile of an image `width` by `height` (see `tile_rect_spec`).
pub fn tile_rect(tx: u32, ty: u32, width: u32, height: u32) -> (r: Rect)
    requires
        (tx as int) < tiles_across(width),
        (ty as int) < tiles_across(height),
    ensures
        r == tile_rect_spec(tx as int, ty as int, width, height),
        r.x + r.width <= width,
        r.y + r.height <= height,
        r.width >= 1,
        r.height >= 1,
{
    let x = tx as u64 * 32;
    let y = ty as u64 * 32;
    let w = if (width as u64) - x < 32 { (width as u64 - x) as u32 } else { 32 };
    let h = if (height as u64) - y < 32 { (height as u64 - y) as u32 } else { 32 };
    Rect { x: x as u32, y: y as u32, width: w, height: h }
}

/// The place of tile `(tx, ty)` in a row-major list of tiles, `num_x` per row.
pub fn tile_slot(tx: u32, ty: u32, num_x: u32, num_y: u32) -> (r: usize)
    requires
        tx < num_x,
        ty < num_y,
        num_x * num_y <= usize::MAX,
    ensures
        r == ty * num_x + tx,
        r < num_x * num_y,
{
    assert(ty * num_x + tx < num_x * num_y) by (nonlinear_arith)
        requires
            tx < num_x,
            ty < num_y,
    ;
    ty as usize * num_x as usize + tx as usize
}

/// `tiles` holds the rendered tiles of an image `width` by `height`, row by row,
/// each with a full buffer.
pub open spec fn tiles_laid_out(tiles: Seq<Bucket>, width: u32, height: u32) -> bool {
    let nx = tiles_across(width);
    let ny = tiles_across(height);
    &&& tiles.len() == nx * ny
    &&& forall|tx: int, ty: int|
        0 <= tx < nx && 0 <= ty < ny ==> {
            let t = #[trigger] tiles[ty * nx + tx];
            &&& t.rect == tile_rect_spec(tx, ty, width, height)
            &&& t.buffer is Some
            &&& t.buffer->Some_0@.len() == t.rect.width * t.rect.height
        }
}

/// The pixel `(x, y)` of the image, as its tile holds it.
pub open spec fn image_pixel(tiles: Seq<Bucket>, width: u32, x: int, y: int) -> Rgba {
    let t = tiles[(y / BUCKET_SIZE as int) * tiles_across(width) + x / BUCKET_SIZE as int];
    t.buffer->Some_0@[(y % BUCKET_SIZE as int) * t.rect.width + x % BUCKET_SIZE as int]
}

/// Byte `i` of the row-major RGBA image: channel `i % 4` of pixel `i / 4`.
pub open spec fn image_byte(tiles: Seq<Bucket>, width: u32, i: int) -> u8 {
    let p = i / 4;
    image_pixel(tiles, width, p % (width as int), p / (width as int)).channel(i % 4)
}

proof fn lemma_pixel_in_tile(x: int, y: int, width: u32, height: u32, tiles: Seq<Bucket>)
    requires
        0 <= x < width,
        0 <= y < height,
        tiles_laid_out(tiles, width, height),
    ensures
        0 <= (y / 32) * tiles_across(width) + x / 32 < tiles.len(),
        ({
            let t = tiles[(y / 32) * tiles_across(width) + x / 32];
            &&& t.rect.width <= BUCKET_SIZE
            &&& t.buffer is Some
            &&& 0 <= (y % 32) * t.rect.width + x % 32 < t.buffer->Some_0@.len()
        }),
{
    let nx = tiles_across(width);
    let ny = tiles_across(height);
    let tx = x / 32;
    let ty = y / 32;
    assert(0 <= tx < nx && 0 <= ty < ny);
    assert(0 <= ty * nx + tx < nx * ny) by (nonlinear_arith)
        requires
            0 <= tx < nx,
            0 <= ty < ny,
    ;
    let t = tiles[ty * nx + tx];
    assert(t.rect == tile_rect_spec(tx, ty, width, height));
    let rw = t.rect.width as int;
    let rh = t.rect.height as int;
    assert(x % 32 < rw && y % 32 < rh);
    assert(0 <= (y % 32) * rw + x % 32 < rw * rh) by (nonlinear_arith)
        requires
            0 <= x % 32 < rw,
            0 <= y % 32 < rh,
    ;
}

/// Puts the rendered tiles together into the image: `width * height` pixels, row by
/// row from the top left, four bytes each in the order R, G, B, A.
pub fn assemble_image(width: u32, height: u32, tiles: &Vec<Bucket>) -> (r: Vec<u8>)
    requires
        tiles_laid_out(tiles@, width, height),
    ensures
        r@.len() == width * height * 4,
        forall|i: int| 0 <= i < r@.len() ==> #[trigger] r@[i] == image_byte(tiles@, width, i),
{
    let (nx, ny) = tile_counts(width, height);
    let mut out: Vec<u8> = Vec::new();
    let mut y: u32 = 0;
    while y < height
        invariant
            tiles_laid_out(tiles@, width, height),
            nx == tiles_across(width),
            ny == tiles_across(height),
            tiles@.len() == tiles.len(),
            y <= height,
            out@.len() == 4 * (y * width),
            forall|i: int| 0 <= i < out@.len() ==> #[trigger] out@[i] == image_byte(tiles@, width, i),
        decreases height - y,
    {
        let mut x: u32 = 0;
        while x < width
            invariant
                tiles_laid_out(tiles@, width, height),
                nx == tiles_across(width),
                ny == tiles_across(height),
                tiles@.len() == tiles.len(),
                y < height,
                x <= width,
                out@.len() == 4 * (y * width + x),
                forall|i: int| 0 <= i < out@.len() ==> #[trigger] out@[i] == image_byte(tiles@, width, i),
            decreases width - x,
        {
            proof {
                lemma_pixel_in_tile(x as int, y as int, width, height, tiles@);
            }
            assert((y / 32) as int * nx <= (y / 32) as int * nx + (x / 32) as int);
            let slot = (y / 32) as usize * nx as usize + (x / 32) as usize;
            let tile = &tiles[slot];
            assert((y % 32) as int * tile.rect.width <= 32 * 32) by (nonlinear_arith)
                requires
                    (y % 32) < 32,
                    tile.rect.width <= 32,
            ;
            let px = match &tile.buffer {
                Some(buf) => {
                    let local = (y % 32) as usize * tile.rect.width as usize + (x % 32) as usize;
                    buf[local]
                },
                None => Rgba::black(),
            };
            let ghost before = out@;
            let ghost p = y * width + x;
            out.push(px.r);
            out.push(px.g);
            out.push(px.b);
            out.push(px.a);
            proof {
                lemma_fundamental_div_mod_converse(p, width as int, y as int, x as int);
                assert forall|i: int| 0 <= i < out@.len() implies #[trigger] out@[i] == image_byte(tiles@, width, i) by {
                    if i >= 4 * p {
                        let c = i - 4 * p;
                        lemma_fundamental_div_mod_converse(i, 4, p, c);
                    } else {
                        assert(out@[i] == before[i]);
                    }
                }
            }
            x += 1;
        }
        assert(4 * (y * width + width) == 4 * ((y + 1) * width)) by (nonlinear_arith);
        y += 1;
    }
    assert(4 * (height * width) == width * height * 4) by (nonlinear_arith);
    out
}

pub open spec fn abs(a: int) -> int {
    if a < 0 { -a } else { a }
}

/// The ring of tile `(bx, by)` around the center tile `(cx, cy)`: the larger of
/// the distances along the two axes.
pub open spec fn ring(cx: int, cy: int, bx: int, by: int) -> int {
    if abs(bx - cx) >= abs(by - cy) { abs(bx - cx) } else { abs(by - cy) }
}

/// Tile `(bx, by)` comes before the position `(d, y, x)`: it lies on an inner ring,
/// or on ring `d` in an earlier row, or in row `y` further left.
pub open spec fn comes_before(cx: int, cy: int, bx: int, by: int, d: int, y: int, x: int) -> bool {
    let r = ring(cx, cy, bx, by);
    r < d || (r == d && (by < y || (by == y && bx < x)))
}

/// The order in which the tiles are handed out: ring by ring from the center tile
/// outward, and within a ring row by row, left to right.
pub open spec fn spiral_order(cx: int, cy: int, a: (u32, u32), b: (u32, u32)) -> bool {
    comes_before(cx, cy, a.0 as int, a.1 as int, ring(cx, cy, b.0 as int, b.1 as int), b.1 as int, b.0 as int)
}

proof fn lemma_ring_bound(n: int, b: int)
    requires
        0 <= b < n,
    ensures
        abs(b - n / 2) <= n / 2,
{
}

/// The tiles of a grid `num_x` by `num_y`, center first (see `spiral_order`); the
/// center tile is `(num_x / 2, num_y / 2)`. Every tile of the grid comes exactly
/// once.
pub fn bucket_sequence(num_x: u32, num_y: u32) -> (r: Vec<(u32, u32)>)
    ensures
        is_center_out(r@, num_x, num_y),
{
    let cx = (num_x / 2) as i64;
    let cy = (num_y / 2) as i64;
    let ghost gx = cx as int;
    let ghost gy = cy as int;
    let max_d: i64 = if cx >= cy { cx } else { cy };
    let mut seq: Vec<(u32, u32)> = Vec::new();
    let mut d: i64 = 0;
    while d <= max_d
        invariant
            gx == cx,
            gy == cy,
            cx == num_x / 2,
            cy == num_y / 2,
            max_d == if cx >= cy { cx } else { cy },
            0 <= d <= max_d + 1,
            forall|i: int|
                0 <= i < seq@.len() ==> (#[trigger] seq@[i]).0 < num_x && seq@[i].1 < num_y
                    && comes_before(gx, gy, seq@[i].0 as int, seq@[i].1 as int, d as int, gy - d, gx - d),
            forall|i: int, j: int|
                0 <= i < j < seq@.len() ==> spiral_order(gx, gy, #[trigger] seq@[i], #[trigger] seq@[j]),
            forall|bx: u32, by: u32|
                bx < num_x && by < num_y && comes_before(gx, gy, bx as int, by as int, d as int, gy - d, gx - d)
                    ==> #[trigger] seq@.contains((bx, by)),
        decreases max_d + 1 - d,
    {
        let mut dy: i64 = -d;
        while dy <= d
            invariant
                gx == cx,
                gy == cy,
                cx == num_x / 2,
                cy == num_y / 2,
                max_d == if cx >= cy { cx } else { cy },
                0 <= d <= max_d,
                -d <= dy <= d + 1,
                forall|i: int|
                    0 <= i < seq@.len() ==> (#[trigger] seq@[i]).0 < num_x && seq@[i].1 < num_y
                        && comes_before(gx, gy, seq@[i].0 as int, seq@[i].1 as int, d as int, gy + dy, gx - d),
                forall|i: int, j: int|
                    0 <= i < j < seq@.len() ==> spiral_order(gx, gy, #[trigger] seq@[i], #[trigger] seq@[j]),
                forall|bx: u32, by: u32|
                    bx < num_x && by < num_y && comes_before(gx, gy, bx as int, by as int, d as int, gy + dy, gx - d)
                        ==> #[trigger] seq@.contains((bx, by)),
            decreases d + 1 - dy,
        {
            let mut dx: i64 = -d;
            while dx <= d
                invariant
                    gx == cx,
                    gy == cy,
                    cx == num_x / 2,
                    cy == num_y / 2,
                    0 <= d <= max_d,
                    max_d == if cx >= cy { cx } else { cy },
                    -d <= dy <= d,
                    -d <= dx <= d + 1,
                    forall|i: int|
                        0 <= i < seq@.len() ==> (#[trigger] seq@[i]).0 < num_x && seq@[i].1 < num_y
                            && comes_before(gx, gy, seq@[i].0 as int, seq@[i].1 as int, d as int, gy + dy, gx + dx),
                    forall|i: int, j: int|
                        0 <= i < j < seq@.len() ==> spiral_order(gx, gy, #[trigger] seq@[i], #[trigger] seq@[j]),
                    forall|bx: u32, by: u32|
                        bx < num_x && by < num_y && comes_before(gx, gy, bx as int, by as int, d as int, gy + dy, gx + dx)
                            ==> #[trigger] seq@.contains((bx, by)),
                decreases d + 1 - dx,
            {
                let bx = cx + dx;
                let by = cy + dy;
                let on_ring = dx == d || dx == -d || dy == d || dy == -d;
                let ghost before = seq@;
                if on_ring && bx >= 0 && by >= 0 && bx < num_x as i64 && by < num_y as i64 {
                    let q = (bx as u32, by as u32);
                    seq.push(q);
                    proof {
                        assert(ring(gx, gy, bx as int, by as int) == d);
                        assert forall|i: int| 0 <= i < seq@.len() implies (#[trigger] seq@[i]).0 < num_x
                            && seq@[i].1 < num_y && comes_before(gx, gy, seq@[i].0 as int, seq@[i].1 as int, d as int, gy + dy, gx + dx + 1) by {
                            if i < before.len() {
                                assert(seq@[i] == before[i]);
                            }
                        }
                        assert forall|i: int, j: int| 0 <= i < j < seq@.len() implies spiral_order(gx, gy, #[trigger] seq@[i], #[trigger] seq@[j]) by {
                            if j < before.len() {
                                assert(seq@[i] == before[i]);
                                assert(seq@[j] == before[j]);
                            } else {
                                assert(seq@[i] == before[i]);
                                assert(seq@[j] == q);
                            }
                        }
                        assert forall|px: u32, py: u32| px < num_x && py < num_y && comes_before(gx, gy, px as int, py as int, d as int, gy + dy, gx + dx + 1)
                            implies #[trigger] seq@.contains((px, py)) by {
                            if comes_before(gx, gy, px as int, py as int, d as int, gy + dy, gx + dx) {
                                assert(before.contains((px, py)));
                                let i = choose|i: int| 0 <= i < before.len() && before[i] == (px, py);
                                assert(seq@[i] == (px, py));
                            } else {
                                assert(seq@[before.len() as int] == (px, py));
                            }
                        }
                    }
                } else {
                    proof {
                        assert forall|px: u32, py: u32| px < num_x && py < num_y && comes_before(gx, gy, px as int, py as int, d as int, gy + dy, gx + dx + 1)
                            implies #[trigger] seq@.contains((px, py)) by {
                            if !comes_before(gx, gy, px as int, py as int, d as int, gy + dy, gx + dx) {
                                assert(px as int == bx && py as int == by);
                            }
                        }
                    }
                }
                dx += 1;
            }
            proof {
                assert forall|px: int, py: int| #[trigger] comes_before(gx, gy, px, py, d as int, gy + dy, gx + d + 1)
                    == comes_before(gx, gy, px, py, d as int, gy + dy + 1, gx - d) by {
                }
            }
            dy += 1;
        }
        proof {
            assert forall|px: int, py: int| #[trigger] comes_before(gx, gy, px, py, d as int, gy + d + 1, gx - d)
                == comes_before(gx, gy, px, py, d as int + 1, gy - d - 1, gx - d - 1) by {
            }
        }
        d += 1;
    }
    proof {
        assert forall|px: u32, py: u32| px < num_x && py < num_y implies #[trigger] seq@.contains((px, py)) by {
            lemma_ring_bound(num_x as int, px as int);
            lemma_ring_bound(num_y as int, py as int);
            assert(comes_before(gx, gy, px as int, py as int, d as int, gy - d, gx - d));
        }
    }
    seq
}

} // verus!
