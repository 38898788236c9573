use vstd::prelude::*;

verus! {

/// Geometry of the physical framebuffer: its visible size and its pitch,
/// the number of pixel words between the starts of two scanlines.
#[derive(Clone, Copy, Debug, PartialEq, Eq, Structural)]
pub struct FramebufferInfo {
    pub width: usize,
    pub height: usize,
    pub pitch: usize,
}

impl FramebufferInfo {
    /// A framebuffer whose scanlines hold its width and whose memory
    /// (`pitch * height` words) can be indexed.
    pub open spec fn wf(&self) -> bool {
        self.width <= self.pitch && self.pitch * self.height <= usize::MAX
    }

    /// Offset of pixel `(x, y)` in the framebuffer's memory.
    pub open spec fn offset(&self, x: int, y: int) -> int {
        y * self.pitch + x
    }

    /// Writes `color` at `(x, y)` of the framebuffer memory `mem`; a pixel
    /// outside the visible area is left alone.
    pub fn set_pixel(&self, mem: &mut [u32], x: usize, y: usize, color: u32)
        requires
            self.wf(),
            old(mem)@.len() == self.pitch * self.height,
        ensures
            x < self.width && y < self.height ==> final(mem)@ == old(mem)@.update(
                self.offset(x as int, y as int),
                color,
            ),
            !(x < self.width && y < self.height) ==> final(mem)@ == old(mem)@,
    {
        if x < self.width && y < self.height {
            proof {
                lemma_index_in_range(x as int, y as int, self.pitch as int, self.height as int);
            }
            mem[y * self.pitch + x] = color;
        }
    }
}

/// `y * w + x` lies in `[0, w * h)` for every pixel of a `w x h` grid.
pub proof fn lemma_index_in_range(x: int, y: int, w: int, h: int)
    requires
        0 <= x < w,
        0 <= y < h,
    ensures
        0 <= y * w + x < w * h,
        y * w + x + 1 <= w * h,
{
    assert(0 <= y * w + x < w * h) by (nonlinear_arith)
        requires
            0 <= x < w,
            0 <= y < h,
    ;
}

/// Two pixels of a grid of width `w` share an index only if they are the
/// same pixel.
pub proof fn lemma_index_injective(x: int, y: int, px: int, py: int, w: int)
    requires
        0 <= x < w,
        0 <= px < w,
        0 <= y,
        0 <= py,
    ensures
        (y * w + x == py * w + px) <==> (x == px && y == py),
{
    if y < py {
        assert(y * w + x < py * w + px) by (nonlinear_arith)
            requires
                0 <= x < w,
                0 <= px,
                y < py,
        ;
    } else if py < y {
        assert(py * w + px < y * w + x) by (nonlinear_arith)
            requires
                0 <= px < w,
                0 <= x,
                py < y,
        ;
    }
}

/// The drawing surface: the framebuffer's geometry and a back buffer of
/// `width * height` color words, row-major, with no padding between rows.
pub struct Display {
    fb: FramebufferInfo,
    back_buffer: Vec<u32>,
}

impl Display {
    /// Width of the surface in pixels.
    pub closed spec fn width_spec(&self) -> int {
        self.fb.width as int
    }

    /// Height of the surface in pixels.
    pub closed spec fn height_spec(&self) -> int {
        self.fb.height as int
    }

    /// The framebuffer geometry that this display presents to.
    pub closed spec fn info(&self) -> FramebufferInfo {
        self.fb
    }

    /// `(x, y)` lies on the surface.
    pub open spec fn in_bounds(&self, x: int, y: int) -> bool {
        0 <= x < self.width_spec() && 0 <= y < self.height_spec()
    }

    /// The color of pixel `(x, y)`; `0` outside the surface.
    pub closed spec fn pixel(&self, x: int, y: int) -> u32 {
        if self.in_bounds(x, y) {
            self.back_buffer@[y * self.width_spec() + x]
        } else {
            0
        }
    }

    /// The back buffer holds exactly one word per visible pixel.
    pub closed spec fn wf(&self) -> bool {
        &&& self.fb.wf()
        &&& self.back_buffer@.len() == self.fb.width * self.fb.height
        &&& self.width_spec() == self.info().width
        &&& self.height_spec() == self.info().height
    }

    /// `other` has the same geometry as `self`.
    pub open spec fn same_geometry(&self, other: &Display) -> bool {
        &&& other.wf()
        &&& other.info() == self.info()
        &&& other.width_spec() == self.width_spec()
        &&& other.height_spec() == self.height_spec()
    }

    /// `new` is `old` with every pixel on which `shape` holds set to `c`
    /// (as far as it lies on the surface) and every other pixel kept.
    pub open spec fn painted(old: Display, new: Display, shape: spec_fn(int, int) -> bool, c: u32) -> bool {
        &&& old.same_geometry(&new)
        &&& forall|x: int, y: int|
            #[trigger] new.pixel(x, y) == if old.in_bounds(x, y) && shape(x, y) {
                c
            } else {
                old.pixel(x, y)
            }
    }

    proof fn lemma_wf_facts(&self)
        requires
            self.wf(),
        ensures
            self.fb.width * self.fb.height <= self.fb.pitch * self.fb.height,
            self.fb.width * self.fb.height <= usize::MAX,
    {
        assert(self.fb.width * self.fb.height <= self.fb.pitch * self.fb.height) by (nonlinear_arith)
            requires
                self.fb.width <= self.fb.pitch,
        ;
    }

    /// Makes a display for the framebuffer `fb`, with a back buffer of
    /// `width * height` words, all zero.
    pub fn init(fb: FramebufferInfo) -> (d: Display)
        requires
            fb.wf(),
        ensures
            d.wf(),
            d.info() == fb,
            d.width_spec() == fb.width,
            d.height_spec() == fb.height,
            forall|x: int, y: int| #[trigger] d.pixel(x, y) == 0,
    {
        assert(fb.width * fb.height <= fb.pitch * fb.height) by (nonlinear_arith)
            requires
                fb.width <= fb.pitch,
        ;
        let size = fb.width * fb.height;
        let back_buffer = vec![0u32; size];
        let d = Display { fb, back_buffer };
        assert forall|x: int, y: int| #[trigger] d.pixel(x, y) == 0 by {
            if d.in_bounds(x, y) {
                lemma_index_in_range(x, y, fb.width as int, fb.height as int);
            }
        }
        d
    }

    /// Writes `color` at `(x, y)`; a pixel off the surface is ignored.
    pub fn set_pixel(&mut self, x: usize, y: usize, color: u32)
        requires
            old(self).wf(),
        ensures
            Display::painted(*old(self), *final(self), |px: int, py: int| px == x && py == y, color),
    {
        if x < self.fb.width && y < self.fb.height {
            proof {
                lemma_index_in_range(x as int, y as int, self.fb.width as int, self.fb.height as int);
                self.lemma_wf_facts();
            }
            let i = y * self.fb.width + x;
            self.back_buffer.set(i, color);
        }
        proof {
            assert forall|px: int, py: int|
                #[trigger] self.pixel(px, py) == if old(self).in_bounds(px, py) && px == x && py == y {
                    color
                } else {
                    old(self).pixel(px, py)
                } by {
                if self.in_bounds(px, py) && x < self.fb.width && y < self.fb.height {
                    lemma_index_injective(x as int, y as int, px, py, self.width_spec());
                    lemma_index_in_range(px, py, self.width_spec(), self.height_spec());
                }
            }
        }
    }

    /// The color at `(x, y)`, or `0` off the surface.
    pub fn get_pixel(&self, x: usize, y: usize) -> (c: u32)
        requires
            self.wf(),
        ensures
            c == self.pixel(x as int, y as int),
    {
        if x < self.fb.width && y < self.fb.height {
            proof {
                lemma_index_in_range(x as int, y as int, self.fb.width as int, self.fb.height as int);
                self.lemma_wf_facts();
            }
            self.back_buffer[y * self.fb.width + x]
        } else {
            0
        }
    }

    /// Copies the back buffer into the framebuffer memory `front`: row `y`
    /// of the back buffer lands at offset `y * pitch`; the padding past the
    /// visible width of each scanline is left alone.
    pub fn swap_buffers(&self, front: &mut [u32])
        requires
            self.wf(),
            old(front)@.len() == self.info().pitch * self.info().height,
        ensures
            final(front)@.len() == old(front)@.len(),
            forall|x: int, y: int|
                self.in_bounds(x, y) ==> final(front)@[#[trigger] self.info().offset(x, y)]
                    == self.pixel(x, y),
            forall|i: int|
                0 <= i < old(front)@.len() && i % (self.info().pitch as int) >= self.info().width
                    ==> final(front)@[i] == old(front)@[i],
    {
        let w = self.fb.width;
        let h = self.fb.height;
        let p = self.fb.pitch;
        let mut y: usize = 0;
        while y < h
            invariant
                self.wf(),
                w == self.fb.width,
                h == self.fb.height,
                p == self.fb.pitch,
                0 <= y <= h,
                front@.len() == old(front)@.len(),
                front@.len() == p * h,
                forall|px: int, py: int|
                    0 <= px < w && 0 <= py < y ==> front@[#[trigger] self.info().offset(px, py)]
                        == self.pixel(px, py),
                forall|i: int|
                    0 <= i < front@.len() && !(i % (p as int) < w && i / (p as int) < y)
                        ==> front@[i] == old(front)@[i],
            decreases h - y,
        {
            let mut x: usize = 0;
            while x < w
                invariant
                    self.wf(),
                    w == self.fb.width,
                    h == self.fb.height,
                    p == self.fb.pitch,
                    0 <= y < h,
                    0 <= x <= w,
                    front@.len() == old(front)@.len(),
                    front@.len() == p * h,
                    forall|px: int, py: int|
                        0 <= px < w && 0 <= py < y ==> front@[#[trigger] self.info().offset(px, py)]
                            == self.pixel(px, py),
                    forall|px: int|
                        0 <= px < x ==> front@[#[trigger] self.info().offset(px, y as int)]
                            == self.pixel(px, y as int),
                    forall|i: int|
                        0 <= i < front@.len() && !(i % (p as int) < w && (i / (p as int) < y || (
                        i / (p as int) == y && i % (p as int) < x))) ==> front@[i] == old(front)@[i],
                decreases w - x,
            {
                proof {
                    lemma_index_in_range(x as int, y as int, p as int, h as int);
                    lemma_index_in_range(x as int, y as int, w as int, h as int);
                    self.lemma_wf_facts();
                }
                let v = self.back_buffer[y * w + x];
                let ghost prev = front@;
                front[y * p + x] = v;
                proof {
                    let o = y * p + x;
                    assert(o % (p as int) == x && o / (p as int) == y) by (nonlinear_arith)
                        requires
                            o == y * p + x,
                            0 <= x < w,
                            w <= p,
                    ;
                    assert forall|px: int, py: int|
                        0 <= px < w && 0 <= py < y implies front@[#[trigger] self.info().offset(px, py)]
                            == self.pixel(px, py) by {
                        lemma_index_injective(x as int, y as int, px, py, p as int);
                        lemma_index_in_range(px, py, p as int, h as int);
                        assert(front@[self.info().offset(px, py)] == prev[self.info().offset(px, py)]);
                    }
                    assert forall|px: int|
                        0 <= px <= x implies front@[#[trigger] self.info().offset(px, y as int)]
                            == self.pixel(px, y as int) by {
                        lemma_index_injective(x as int, y as int, px, y as int, p as int);
                        lemma_index_in_range(px, y as int, p as int, h as int);
                        lemma_index_in_range(px, y as int, w as int, h as int);
                    }
                }
                x = x + 1;
            }
            y = y + 1;
        }
    }

    /// Sets every pixel to `color`.
    pub fn clear(&mut self, color: u32)
        requires
            old(self).wf(),
        ensures
            Display::painted(*old(self), *final(self), |px: int, py: int| true, color),
    {
        let n = self.back_buffer.len();
        let mut i: usize = 0;
        while i < n
            invariant
                n == self.back_buffer@.len(),
                self.fb == old(self).fb,
                n == old(self).back_buffer@.len(),
                0 <= i <= n,
                forall|k: int| 0 <= k < i ==> self.back_buffer@[k] == color,
            decreases n - i,
        {
            self.back_buffer.set(i, color);
            i = i + 1;
        }
        proof {
            assert forall|x: int, y: int| self.in_bounds(x, y) implies #[trigger] self.pixel(x, y) == color by {
                lemma_index_in_range(x, y, self.width_spec(), self.height_spec());
            }
        }
    }

    /// Width of the surface in pixels.
    pub fn width(&self) -> (w: usize)
        ensures
            w == self.width_spec(),
    {
        self.fb.width
    }

    /// Height of the surface in pixels.
    pub fn height(&self) -> (h: usize)
        ensures
            h == self.height_spec(),
    {
        self.fb.height
    }
}

/// A well-formed display is as wide and as tall as the framebuffer it
/// presents to, and that framebuffer's geometry is well formed.
pub proof fn lemma_display_geometry(d: Display)
    requires
        d.wf(),
    ensures
        d.width_spec() == d.info().width,
        d.height_spec() == d.info().height,
        d.info().wf(),
{
}

/// A pixel off the surface reads as `0`.
pub proof fn lemma_pixel_off_surface(d: Display, x: int, y: int)
    requires
        !d.in_bounds(x, y),
    ensures
        d.pixel(x, y) == 0,
{
}

/// Painting `s1` and then `s2` in one color paints their union.
pub proof fn lemma_painted_union(
    a: Display,
    b: Display,
    d: Display,
    s1: spec_fn(int, int) -> bool,
    s2: spec_fn(int, int) -> bool,
    c: u32,
)
    requires
        Display::painted(a, b, s1, c),
        Display::painted(b, d, s2, c),
    ensures
        Display::painted(a, d, |x: int, y: int| s1(x, y) || s2(x, y), c),
{
    assert forall|x: int, y: int|
        #[trigger] d.pixel(x, y) == if a.in_bounds(x, y) && (s1(x, y) || s2(x, y)) {
            c
        } else {
            a.pixel(x, y)
        } by {
        assert(d.pixel(x, y) == if b.in_bounds(x, y) && s2(x, y) { c } else { b.pixel(x, y) });
        assert(b.pixel(x, y) == if a.in_bounds(x, y) && s1(x, y) { c } else { a.pixel(x, y) });
    }
}

/// A painting is described equally well by any shape that agrees with
/// its own on the surface.
pub proof fn lemma_painted_same(
    a: Display,
    b: Display,
    s1: spec_fn(int, int) -> bool,
    s2: spec_fn(int, int) -> bool,
    c: u32,
)
    requires
        Display::painted(a, b, s1, c),
        forall|x: int, y: int| a.in_bounds(x, y) ==> (s1(x, y) == s2(x, y)),
    ensures
        Display::painted(a, b, s2, c),
{
    assert forall|x: int, y: int|
        #[trigger] b.pixel(x, y) == if a.in_bounds(x, y) && s2(x, y) {
            c
        } else {
            a.pixel(x, y)
        } by {
        assert(b.pixel(x, y) == if a.in_bounds(x, y) && s1(x, y) { c } else { a.pixel(x, y) });
    }
}

/// Painting the pixels of `pts` and then pixel `(x, y)` paints `pts`
/// with `(x, y)` added.
pub proof fn lemma_painted_insert(
    a: Display,
    b: Display,
    d: Display,
    pts: Set<(int, int)>,
    x: int,
    y: int,
    c: u32,
)
    requires
        Display::painted(a, b, |px: int, py: int| pts.contains((px, py)), c),
        Display::painted(b, d, |px: int, py: int| px == x && py == y, c),
    ensures
        Display::painted(a, d, |px: int, py: int| pts.insert((x, y)).contains((px, py)), c),
{
    lemma_painted_union(
        a,
        b,
        d,
        |px: int, py: int| pts.contains((px, py)),
        |px: int, py: int| px == x && py == y,
        c,
    );
    lemma_painted_same(
        a,
        d,
        |px: int, py: int| pts.contains((px, py)) || (px == x && py == y),
        |px: int, py: int| pts.insert((x, y)).contains((px, py)),
        c,
    );
}

/// Painting nothing leaves a display as it was.
pub proof fn lemma_painted_nothing(a: Display, c: u32)
    requires
        a.wf(),
    ensures
        Display::painted(a, a, |x: int, y: int| false, c),
{
}

/// Writes `color` at `(x, y)` of `display`.
pub fn draw_pixel(display: &mut Display, x: usize, y: usize, color: u32)
    requires
        old(display).wf(),
    ensures
        Display::painted(*old(display), *final(display), |px: int, py: int| px == x && py == y, color),
{
    display.set_pixel(x, y, color);
}

/// Sets every pixel of `display` to `color`.
pub fn clear_screen(display: &mut Display, color: u32)
    requires
        old(display).wf(),
    ensures
        Display::painted(*old(display), *final(display), |px: int, py: int| true, color),
{
    display.clear(color);
}

/// Presents `display` on the framebuffer memory `front`.
pub fn swap_buffers(display: &Display, front: &mut [u32])
    requires
        display.wf(),
        old(front)@.len() == display.info().pitch * display.info().height,
    ensures
        final(front)@.len() == old(front)@.len(),
        forall|x: int, y: int|
            display.in_bounds(x, y) ==> final(front)@[#[trigger] display.info().offset(x, y)]
                == display.pixel(x, y),
        forall|i: int|
            0 <= i < old(front)@.len() && i % (display.info().pitch as int) >= display.info().width
                ==> final(front)@[i] == old(front)@[i],
{
    display.swap_buffers(front);
}

} // verus!
