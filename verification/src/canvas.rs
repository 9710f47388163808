//! RGBA pixel canvases: filling, pasting, cropping and resampling.

use vstd::prelude::*;

verus! {

/// One RGBA pixel with 8-bit channels.
#[derive(Clone, Copy, Debug, PartialEq, Eq, Structural)]
pub struct Rgba {
    pub r: u8,
    pub g: u8,
    pub b: u8,
    pub a: u8,
}

impl Rgba {
    pub fn new(r: u8, g: u8, b: u8, a: u8) -> (p: Rgba)
        ensures
            p == (Rgba { r, g, b, a }),
    {
        Rgba { r, g, b, a }
    }
}

/// The pixel stored at pixel index `i` of row-major RGBA bytes.
pub open spec fn rgba_at(d: Seq<u8>, i: int) -> Rgba {
    Rgba { r: d[4 * i], g: d[4 * i + 1], b: d[4 * i + 2], a: d[4 * i + 3] }
}

/// `(x, y)` lies in the `w x h` rectangle whose top-left corner is `(x0, y0)`.
pub open spec fn in_rect(x: int, y: int, x0: int, y0: int, w: int, h: int) -> bool {
    x0 <= x < x0 + w && y0 <= y < y0 + h
}

/// Row-major pixel index arithmetic stays inside the buffer.
pub proof fn lemma_pixel_index(w: int, h: int, x: int, y: int)
    by (nonlinear_arith)
    requires
        0 <= x < w,
        0 <= y < h,
    ensures
        0 <= y * w + x < w * h,
        (y * w + x) * 4 + 3 < w * h * 4,
{
}

/// Distinct coordinates inside a row of width `w` have distinct indices.
pub proof fn lemma_pixel_index_injective(w: int, x1: int, y1: int, x2: int, y2: int)
    by (nonlinear_arith)
    requires
        0 <= x1 < w,
        0 <= x2 < w,
        0 <= y1,
        0 <= y2,
        y1 * w + x1 == y2 * w + x2,
    ensures
        x1 == x2 && y1 == y2,
{
}

/// A Lanczos3 resampling as the `image` crate returned it: the source
/// bytes and size, the target size, and the bytes that came back.
pub ghost struct Resampling {
    pub src: Seq<u8>,
    pub src_w: u32,
    pub src_h: u32,
    pub w: u32,
    pub h: u32,
    pub bytes: Seq<u8>,
}

/// An RGBA image: `width x height` pixels stored row-major, 4 bytes each,
/// the layout of `image::RgbaImage`.
pub struct Canvas {
    width: u32,
    height: u32,
    data: Vec<u8>,
    /// When the canvas is, byte for byte, a Lanczos3 resampling: which.
    resampled: Ghost<Option<Resampling>>,
    /// The corner and the resampling (if the pasted canvas was one) of the
    /// last canvas pasted onto this one.
    drawn: Ghost<Option<(u32, u32, Option<Resampling>)>>,
}

impl Canvas {
    #[verifier::type_invariant]
    spec fn inv(self) -> bool {
        &&& self.data@.len() == self.width as int * self.height as int * 4
        &&& self.data@.len() <= isize::MAX
        &&& self.resampled@ matches Some(r) ==> r.bytes == self.data@ && r.w == self.width && r.h == self.height
    }

    /// The Lanczos3 resampling that this canvas is, byte for byte, if any.
    pub closed spec fn resampling(&self) -> Option<Resampling> {
        self.resampled@
    }

    /// The corner, and the resampling if it was one, of the last canvas
    /// pasted onto this one.
    pub closed spec fn drawn(&self) -> Option<(u32, u32, Option<Resampling>)> {
        self.drawn@
    }

    pub closed spec fn w(&self) -> u32 {
        self.width
    }

    pub closed spec fn h(&self) -> u32 {
        self.height
    }

    /// The RGBA bytes, row-major.
    pub closed spec fn bytes(&self) -> Seq<u8> {
        self.data@
    }

    /// The pixel at column `x`, row `y`.
    pub open spec fn pixel(&self, x: int, y: int) -> Rgba {
        rgba_at(self.bytes(), y * self.w() + x)
    }

    pub fn width(&self) -> (r: u32)
        ensures
            r == self.w(),
    {
        self.width
    }

    pub fn height(&self) -> (r: u32)
        ensures
            r == self.h(),
    {
        self.height
    }

    /// `(width, height)`.
    pub fn dimensions(&self) -> (r: (u32, u32))
        ensures
            r == (self.w(), self.h()),
    {
        (self.width, self.height)
    }

    /// A `w x h` canvas with every pixel set to `fill`
    /// (`ImageBuffer::from_pixel`).
    pub fn from_pixel(w: u32, h: u32, fill: Rgba) -> (c: Canvas)
        requires
            w as int * h as int * 4 <= isize::MAX,
        ensures
            c.w() == w,
            c.h() == h,
            forall|x: int, y: int| 0 <= x < w && 0 <= y < h ==> #[trigger] c.pixel(x, y) == fill,
    {
        let n: usize = (w as usize) * (h as usize);
        let mut data: Vec<u8> = Vec::new();
        let mut i: usize = 0;
        while i < n
            invariant
                n == w as int * h as int,
                n * 4 <= isize::MAX,
                i <= n,
                data@.len() == 4 * i,
                forall|j: int| 0 <= j < i ==> #[trigger] rgba_at(data@, j) == fill,
            decreases n - i,
        {
            let ghost before = data@;
            data.push(fill.r);
            data.push(fill.g);
            data.push(fill.b);
            data.push(fill.a);
            assert forall|j: int| 0 <= j < i + 1 implies #[trigger] rgba_at(data@, j) == fill by {
                if j < i {
                    assert(rgba_at(before, j) == fill);
                }
            }
            i = i + 1;
        }
        let c = Canvas { width: w, height: h, data, resampled: Ghost(None), drawn: Ghost(None) };
        assert forall|x: int, y: int| 0 <= x < w && 0 <= y < h implies #[trigger] c.pixel(x, y) == fill by {
            lemma_pixel_index(w as int, h as int, x, y);
        }
        c
    }

    /// A canvas over row-major RGBA bytes (`ImageBuffer::from_raw`).
    pub fn from_raw(w: u32, h: u32, data: Vec<u8>) -> (c: Canvas)
        requires
            data@.len() == w as int * h as int * 4,
            data@.len() <= isize::MAX,
        ensures
            c.w() == w,
            c.h() == h,
            c.bytes() == data@,
    {
        Canvas { width: w, height: h, data, resampled: Ghost(None), drawn: Ghost(None) }
    }

    /// The row-major RGBA bytes (`ImageBuffer::into_raw`).
    pub fn into_raw(self) -> (d: Vec<u8>)
        ensures
            d@ == self.bytes(),
            d@.len() == self.w() as int * self.h() as int * 4,
    {
        proof {
            use_type_invariant(&self);
        }
        self.data
    }

    /// A copy with the same size and bytes.
    pub fn duplicate(&self) -> (c: Canvas)
        ensures
            c.w() == self.w(),
            c.h() == self.h(),
            c.bytes() == self.bytes(),
    {
        proof {
            use_type_invariant(self);
        }
        let d = self.data.clone();
        assert(d@ =~= self.data@);
        Canvas { width: self.width, height: self.height, data: d, resampled: Ghost(None), drawn: Ghost(None) }
    }

    /// The pixel at `(x, y)`.
    pub fn get_pixel(&self, x: u32, y: u32) -> (p: Rgba)
        requires
            x < self.w(),
            y < self.h(),
        ensures
            p == self.pixel(x as int, y as int),
    {
        proof {
            use_type_invariant(self);
            lemma_pixel_index(self.width as int, self.height as int, x as int, y as int);
            assert(self.data@.len() == self.data.len());
            assert((y as int) * (self.width as int) <= (y as int) * (self.width as int) + x as int);
        }
        let i: usize = ((y as usize) * (self.width as usize) + (x as usize)) * 4;
        Rgba { r: self.data[i], g: self.data[i + 1], b: self.data[i + 2], a: self.data[i + 3] }
    }

    /// Sets the pixel at `(x, y)`; every other pixel stays as it was.
    pub fn put_pixel(&mut self, x: u32, y: u32, p: Rgba)
        requires
            x < old(self).w(),
            y < old(self).h(),
        ensures
            final(self).w() == old(self).w(),
            final(self).h() == old(self).h(),
            final(self).bytes().len() == old(self).bytes().len(),
            forall|x2: int, y2: int|
                0 <= x2 < old(self).w() && 0 <= y2 < old(self).h() ==> #[trigger] final(self).pixel(x2, y2)
                    == if x2 == x && y2 == y { p } else { old(self).pixel(x2, y2) },
            final(self).resampling() is None,
            final(self).drawn() == old(self).drawn(),
        no_unwind
    {
        proof {
            use_type_invariant(&*self);
            lemma_pixel_index(self.width as int, self.height as int, x as int, y as int);
            assert(self.data@.len() == self.data.len());
            assert((y as int) * (self.width as int) <= (y as int) * (self.width as int) + x as int);
        }
        self.resampled = Ghost(None);
        let ghost w = self.width as int;
        let ghost old_data = self.data@;
        let i: usize = ((y as usize) * (self.width as usize) + (x as usize)) * 4;
        self.data[i] = p.r;
        self.data[i + 1] = p.g;
        self.data[i + 2] = p.b;
        self.data[i + 3] = p.a;
        assert forall|x2: int, y2: int|
            0 <= x2 < self.w() && 0 <= y2 < self.h() implies #[trigger] self.pixel(x2, y2)
                == if x2 == x && y2 == y { p } else { rgba_at(old_data, y2 * w + x2) } by {
            lemma_pixel_index(w, self.height as int, x2, y2);
            let j = y2 * w + x2;
            let i0 = y * w + x;
            assert(i == 4 * i0);
            if !(x2 == x && y2 == y) {
                if j == i0 {
                    lemma_pixel_index_injective(w, x2, y2, x as int, y as int);
                }
                assert(j != i0);
                assert(self.data@[4 * j] == old_data[4 * j]);
                assert(self.data@[4 * j + 1] == old_data[4 * j + 1]);
                assert(self.data@[4 * j + 2] == old_data[4 * j + 2]);
                assert(self.data@[4 * j + 3] == old_data[4 * j + 3]);
            }
        }
    }

    /// Copies `src` onto this canvas with its top-left corner at `(x, y)`,
    /// clipped to the canvas; pixels outside the copied area keep their
    /// value. A corner outside the canvas copies nothing.
    pub fn paste(&mut self, src: &Canvas, x: u32, y: u32)
        ensures
            final(self).w() == old(self).w(),
            final(self).h() == old(self).h(),
            forall|px: int, py: int|
                0 <= px < old(self).w() && 0 <= py < old(self).h() ==> #[trigger] final(self).pixel(px, py)
                    == if in_rect(px, py, x as int, y as int, src.w() as int, src.h() as int) {
                        src.pixel(px - x, py - y)
                    } else {
                        old(self).pixel(px, py)
                    },
            final(self).drawn() == Some((x, y, src.resampling())),
    {
        proof {
            use_type_invariant(&*self);
        }
        self.drawn = Ghost(Some((x, y, src.resampling())));
        let ghost orig_w = self.w();
        let ghost orig_h = self.h();
        let ghost orig = self.bytes();
        let big_w = self.width;
        let big_h = self.height;
        if x >= big_w || y >= big_h {
            return;
        }
        let cw = if src.width < big_w - x { src.width } else { big_w - x };
        let ch = if src.height < big_h - y { src.height } else { big_h - y };
        let mut ry: u32 = 0;
        while ry < ch
            invariant
                self.w() == orig_w == big_w,
                self.h() == orig_h == big_h,
                self.drawn() == Some((x, y, src.resampling())),
                x < big_w,
                y < big_h,
                cw <= src.w(),
                ch <= src.h(),
                cw == big_w - x || cw == src.w(),
                ch == big_h - y || ch == src.h(),
                x + cw <= big_w,
                y + ch <= big_h,
                ry <= ch,
                forall|px: int, py: int|
                    0 <= px < big_w && 0 <= py < big_h ==> #[trigger] self.pixel(px, py)
                        == if in_rect(px, py, x as int, y as int, cw as int, ry as int) {
                            src.pixel(px - x, py - y)
                        } else {
                            rgba_at(orig, py * orig_w + px)
                        },
            decreases ch - ry,
        {
            let mut rx: u32 = 0;
            while rx < cw
                invariant
                    self.w() == orig_w == big_w,
                    self.h() == orig_h == big_h,
                    self.drawn() == Some((x, y, src.resampling())),
                    x + cw <= big_w,
                    y + ch <= big_h,
                    cw <= src.w(),
                    ch <= src.h(),
                    ry < ch,
                    rx <= cw,
                    forall|px: int, py: int|
                        0 <= px < big_w && 0 <= py < big_h ==> #[trigger] self.pixel(px, py)
                            == if in_rect(px, py, x as int, y as int, cw as int, ry as int)
                                || (py == y + ry && x <= px < x + rx) {
                                src.pixel(px - x, py - y)
                            } else {
                                rgba_at(orig, py * orig_w + px)
                            },
                decreases cw - rx,
            {
                let p = src.get_pixel(rx, ry);
                self.put_pixel(x + rx, y + ry, p);
                rx = rx + 1;
            }
            ry = ry + 1;
        }
    }

    /// The `cw x ch` part of this canvas whose top-left corner is `(x, y)`
    /// (`GenericImageView::crop_imm` on an area inside the image).
    pub fn crop(&self, x: u32, y: u32, cw: u32, ch: u32) -> (c: Canvas)
        requires
            x as int + cw as int <= self.w(),
            y as int + ch as int <= self.h(),
        ensures
            c.w() == cw,
            c.h() == ch,
            forall|px: int, py: int|
                0 <= px < cw && 0 <= py < ch ==> #[trigger] c.pixel(px, py) == self.pixel(x + px, y + py),
    {
        proof {
            use_type_invariant(self);
            assert(cw as int * ch as int <= self.width as int * self.height as int) by (nonlinear_arith)
                requires
                    cw <= self.width,
                    ch <= self.height,
            ;
            assert(self.data@.len() == self.data.len());
        }
        let mut c = Canvas::from_pixel(cw, ch, Rgba { r: 0, g: 0, b: 0, a: 0 });
        let mut ry: u32 = 0;
        while ry < ch
            invariant
                x as int + cw as int <= self.w(),
                y as int + ch as int <= self.h(),
                c.w() == cw,
                c.h() == ch,
                ry <= ch,
                forall|px: int, py: int|
                    0 <= px < cw && 0 <= py < ry ==> #[trigger] c.pixel(px, py) == self.pixel(x + px, y + py),
            decreases ch - ry,
        {
            let mut rx: u32 = 0;
            while rx < cw
                invariant
                    x as int + cw as int <= self.w(),
                    y as int + ch as int <= self.h(),
                    c.w() == cw,
                    c.h() == ch,
                    ry < ch,
                    rx <= cw,
                    forall|px: int, py: int|
                        0 <= px < cw && 0 <= py < ch && (py < ry || (py == ry && px < rx)) ==> #[trigger] c.pixel(px, py)
                            == self.pixel(x + px, y + py),
                decreases cw - rx,
            {
                let p = self.get_pixel(x + rx, y + ry);
                c.put_pixel(rx, ry, p);
                rx = rx + 1;
            }
            ry = ry + 1;
        }
        c
    }

    /// This canvas resampled to `nw x nh` with the Lanczos3 filter. The
    /// result is recorded as the resampling of this canvas that the `image`
    /// crate returned; its values are not stated (see
    /// `resize_lanczos3_raw`). At its own size the canvas comes back
    /// unchanged.
    pub fn resized_lanczos3(&self, nw: u32, nh: u32) -> (c: Canvas)
        requires
            nw as int * nh as int * 4 <= isize::MAX,
            self.w() as int * nh as int * 16 <= isize::MAX,
        ensures
            c.w() == nw,
            c.h() == nh,
            nw == self.w() && nh == self.h() ==> c.bytes() == self.bytes(),
            c.resampling() == Some(
                Resampling { src: self.bytes(), src_w: self.w(), src_h: self.h(), w: nw, h: nh, bytes: c.bytes() },
            ),
    {
        let (w, h) = (self.width, self.height);
        let raw = self.duplicate().into_raw();
        let ghost src = raw@;
        let out = resize_lanczos3_raw(raw, w, h, nw, nh);
        let ghost got = out@;
        Canvas {
            width: nw,
            height: nh,
            data: out,
            resampled: Ghost(Some(Resampling { src, src_w: w, src_h: h, w: nw, h: nh, bytes: got })),
            drawn: Ghost(None),
        }
    }
}

/// Calls `image::imageops::resize(.., FilterType::Lanczos3)` on the RGBA
/// image `w x h` over `data`. The resampled values are left unsaid: the
/// Lanczos kernel goes through `f32::sin`, whose precision std documents as
/// varying with the platform and the Rust version, so they are no function
/// of the arguments alone. Stated is what the source shows for every
/// outcome: the result is a new `nw x nh` RGBA buffer (`ImageBuffer::new`),
/// and at the image's own size it is a copy of the image (the early
/// `copy_from` return). `requires` leaves out the sizes on which a buffer it
/// allocates (the `u8` output, and a `w x nh` intermediate of four `f32`
/// channels) would exceed `isize::MAX` bytes, where `ImageBuffer::new`
/// panics.
#[verifier::external_body]
fn resize_lanczos3_raw(data: Vec<u8>, w: u32, h: u32, nw: u32, nh: u32) -> (r: Vec<u8>)
    requires
        data@.len() == w as int * h as int * 4,
        nw as int * nh as int * 4 <= isize::MAX,
        w as int * nh as int * 16 <= isize::MAX,
    ensures
        r@.len() == nw as int * nh as int * 4,
        nw == w && nh == h ==> r@ == data@,
{
    let src: image::RgbaImage = image::ImageBuffer::from_raw(w, h, data).unwrap();
    image::imageops::resize(&src, nw, nh, image::imageops::FilterType::Lanczos3).into_raw()
}

} // verus!
