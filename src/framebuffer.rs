use vstd::prelude::*;

verus! {

/// An RGBA color with one byte per channel.
#[derive(Clone, Copy, Debug, PartialEq, Eq, Structural)]
pub struct Color {
    pub r: u8,
    pub g: u8,
    pub b: u8,
    pub a: u8,
}

impl Color {
    pub fn new(r: u8, g: u8, b: u8, a: u8) -> (c: Color)
        ensures
            c == (Color { r, g, b, a }),
    {
        Color { r, g, b, a }
    }

    /// Opaque black.
    pub fn black() -> (c: Color)
        ensures
            c == (Color { r: 0, g: 0, b: 0, a: 255 }),
    {
        Color { r: 0, g: 0, b: 0, a: 255 }
    }

    /// Opaque white.
    pub fn white() -> (c: Color)
        ensures
            c == (Color { r: 255, g: 255, b: 255, a: 255 }),
    {
        Color { r: 255, g: 255, b: 255, a: 255 }
    }
}

/// A `width` by `height` image stored row by row, with a background color
/// for clearing and a current color for drawing.
pub struct Framebuffer {
    width: u32,
    height: u32,
    color_buffer: Vec<Color>,
    background_color: Color,
    current_color: Color,
}

impl Framebuffer {
    pub closed spec fn width_spec(&self) -> nat {
        self.width as nat
    }

    pub closed spec fn height_spec(&self) -> nat {
        self.height as nat
    }

    /// The pixels, row by row.
    pub closed spec fn pixels(&self) -> Seq<Color> {
        self.color_buffer@
    }

    pub closed spec fn background(&self) -> Color {
        self.background_color
    }

    pub closed spec fn current(&self) -> Color {
        self.current_color
    }

    /// Position of pixel (x, y) in the row-by-row buffer.
    pub open spec fn offset(&self, x: int, y: int) -> int {
        y * self.width_spec() + x
    }

    pub open spec fn wf(&self) -> bool {
        self.pixels().len() == self.width_spec() * self.height_spec()
    }

    /// A black image of the given size; background black, current color white.
    pub fn new(width: u32, height: u32) -> (f: Framebuffer)
        requires
            width as nat * height as nat <= usize::MAX,
        ensures
            f.wf(),
            f.width_spec() == width,
            f.height_spec() == height,
            forall|k: int| 0 <= k < f.pixels().len() ==> f.pixels()[k] == Color::black_spec(),
            f.background() == Color::black_spec(),
            f.current() == Color::white_spec(),
    {
        let total = width as usize * height as usize;
        let color_buffer = filled(Color::black(), total);
        Framebuffer {
            width,
            height,
            color_buffer,
            background_color: Color::black(),
            current_color: Color::white(),
        }
    }

    pub fn width(&self) -> (r: u32)
        ensures
            r == self.width_spec(),
    {
        self.width
    }

    pub fn height(&self) -> (r: u32)
        ensures
            r == self.height_spec(),
    {
        self.height
    }

    /// Fills every pixel with the background color.
    pub fn clear(&mut self)
        requires
            old(self).wf(),
        ensures
            final(self).wf(),
            final(self).width_spec() == old(self).width_spec(),
            final(self).height_spec() == old(self).height_spec(),
            final(self).pixels().len() == old(self).pixels().len(),
            forall|k: int| 0 <= k < final(self).pixels().len() ==> final(self).pixels()[k] == old(self).background(),
            final(self).background() == old(self).background(),
            final(self).current() == old(self).current(),
    {
        let total = self.color_buffer.len();
        self.color_buffer = filled(self.background_color, total);
    }

    /// Paints pixel (x, y) with the current color; a position outside the
    /// image leaves it unchanged.
    pub fn set_pixel(&mut self, x: u32, y: u32)
        requires
            old(self).wf(),
        ensures
            final(self).wf(),
            final(self).width_spec() == old(self).width_spec(),
            final(self).height_spec() == old(self).height_spec(),
            final(self).background() == old(self).background(),
            final(self).current() == old(self).current(),
            final(self).pixels() == if x < old(self).width_spec() && y < old(self).height_spec() {
                old(self).pixels().update(old(self).offset(x as int, y as int), old(self).current())
            } else {
                old(self).pixels()
            },
    {
        if x < self.width && y < self.height {
            let c = self.current_color;
            self.write(x as usize, y as usize, c);
        }
    }

    fn write(&mut self, x: usize, y: usize, c: Color)
        requires
            old(self).wf(),
            x < old(self).width_spec(),
            y < old(self).height_spec(),
        ensures
            final(self).wf(),
            final(self).width_spec() == old(self).width_spec(),
            final(self).height_spec() == old(self).height_spec(),
            final(self).background() == old(self).background(),
            final(self).current() == old(self).current(),
            final(self).pixels() == old(self).pixels().update(old(self).offset(x as int, y as int), c),
    {
        let w = self.width as usize;
        let h = self.height as usize;
        let total = self.color_buffer.len();
        proof {
            let wi = w as int;
            let hi = h as int;
            let xi = x as int;
            let yi = y as int;
            assert(yi * wi + xi < wi * hi && yi * wi <= yi * wi + xi) by (nonlinear_arith)
                requires
                    0 <= xi < wi,
                    0 <= yi < hi,
            ;
        }
        let k = y * w + x;
        self.color_buffer.set(k, c);
    }

    /// The color of pixel (x, y), if it lies in the image.
    pub fn pixel(&self, x: u32, y: u32) -> (r: Option<Color>)
        requires
            self.wf(),
        ensures
            r == if x < self.width_spec() && y < self.height_spec() {
                Some(self.pixels()[self.offset(x as int, y as int)])
            } else {
                None
            },
    {
        if x < self.width && y < self.height {
            let w = self.width as usize;
            let h = self.height as usize;
            let total = self.color_buffer.len();
            proof {
                let wi = w as int;
                let hi = h as int;
                let xi = x as int;
                let yi = y as int;
                assert(yi * wi + xi < wi * hi && yi * wi <= yi * wi + xi) by (nonlinear_arith)
                    requires
                        0 <= xi < wi,
                        0 <= yi < hi,
                ;
            }
            Some(self.color_buffer[y as usize * w + x as usize])
        } else {
            None
        }
    }

    pub fn set_background_color(&mut self, color: Color)
        ensures
            final(self).background() == color,
            final(self).current() == old(self).current(),
            final(self).pixels() == old(self).pixels(),
            final(self).width_spec() == old(self).width_spec(),
            final(self).height_spec() == old(self).height_spec(),
    {
        self.background_color = color;
    }

    pub fn set_current_color(&mut self, color: Color)
        ensures
            final(self).current() == color,
            final(self).background() == old(self).background(),
            final(self).pixels() == old(self).pixels(),
            final(self).width_spec() == old(self).width_spec(),
            final(self).height_spec() == old(self).height_spec(),
    {
        self.current_color = color;
    }

    /// Scatters colors given row by row into the image: color `i` goes to
    /// pixel (i % width, i / width), drawn with it as the current color.
    /// Colors past the last row are dropped; an image of width zero takes none.
    pub fn set_pixels(&mut self, colors: &Vec<Color>)
        requires
            old(self).wf(),
        ensures
            final(self).wf(),
            final(self).width_spec() == old(self).width_spec(),
            final(self).height_spec() == old(self).height_spec(),
            final(self).background() == old(self).background(),
            final(self).pixels().len() == old(self).pixels().len(),
            forall|k: int|
                0 <= k < final(self).pixels().len() ==> final(self).pixels()[k] == if k < colors.len() {
                    colors[k]
                } else {
                    old(self).pixels()[k]
                },
            old(self).width_spec() > 0 && colors.len() > 0 ==> final(self).current() == colors@.last(),
            old(self).width_spec() == 0 || colors.len() == 0 ==> final(self).current() == old(self).current(),
    {
        if self.width == 0 {
            return;
        }
        let w = self.width as usize;
        let h = self.height as usize;
        let ghost start = self.pixels();
        let ghost first_color = self.current();
        let mut i: usize = 0;
        while i < colors.len()
            invariant
                self.wf(),
                w == self.width_spec(),
                h == self.height_spec(),
                w > 0,
                i <= colors.len(),
                self.background() == old(self).background(),
                self.pixels().len() == start.len(),
                start.len() == w * h,
                forall|k: int|
                    0 <= k < start.len() ==> self.pixels()[k] == if k < i {
                        colors[k]
                    } else {
                        start[k]
                    },
                i > 0 ==> self.current() == colors[i - 1],
                i == 0 ==> self.current() == first_color,
            decreases colors.len() - i,
        {
            let x = i % w;
            let y = i / w;
            let c = colors[i];
            self.set_current_color(c);
            if y < h {
                let ghost before = self.pixels();
                self.write(x, y, c);
                proof {
                    assert(y * w + x == i && i < w * h) by (nonlinear_arith)
                        requires
                            x == i % w,
                            y == i / w,
                            y < h,
                            w > 0,
                    ;
                    assert(self.pixels() == before.update(i as int, c));
                    assert forall|k: int| 0 <= k < start.len() implies self.pixels()[k] == if k < i + 1 {
                        colors[k]
                    } else {
                        start[k]
                    } by {
                        if k == i {
                        } else {
                            assert(self.pixels()[k] == before[k]);
                        }
                    }
                }
            } else {
                proof {
                    assert(i >= w * h) by (nonlinear_arith)
                        requires
                            y == i / w,
                            y >= h,
                            w > 0,
                    ;
                }
            }
            i = i + 1;
        }
    }
}

impl Color {
    pub open spec fn black_spec() -> Color {
        Color { r: 0, g: 0, b: 0, a: 255 }
    }

    pub open spec fn white_spec() -> Color {
        Color { r: 255, g: 255, b: 255, a: 255 }
    }
}

/// A vector of `n` copies of `c`.
fn filled(c: Color, n: usize) -> (v: Vec<Color>)
    ensures
        v.len() == n,
        forall|k: int| 0 <= k < n ==> v[k] == c,
{
    let mut v: Vec<Color> = Vec::new();
    let mut i: usize = 0;
    while i < n
        invariant
            i <= n,
            v.len() == i,
            forall|k: int| 0 <= k < i ==> v[k] == c,
        decreases n - i,
    {
        v.push(c);
        i = i + 1;
    }
    v
}

} // verus!
