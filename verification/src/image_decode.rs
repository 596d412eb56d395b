//! Decoding images to pixels: `data:` URIs, raster files and SVG, for the
//! document's `<img>` elements and for the images that styles name.
use vstd::prelude::*;
use vstd::string::*;
use vstd::utf8::*;
use crate::dom::{Dom, NodeId};
use crate::float_bits;
use crate::float_bits::{ceil_u32, Bits};
use crate::node_map;
use crate::node_map::NodeMap;
use crate::style_plane::{ComputedStyle, CssImage, DisplayOutside, PseudoKind, StylePlane};
use crate::text::{chars_eq, chars_of, sub_chars};

verus! {

/// Supplies the undecoded bytes of an image that stands at a URL. `data:` URIs
/// do not reach it.
pub trait ImageLoader {
    /// The bytes of the image file at `url`, or `None` where there are none.
    fn load(&self, url: &str) -> (r: Option<Vec<u8>>);
}

/// A loader that has no image.
pub struct NoImageLoader;

impl ImageLoader for NoImageLoader {
    fn load(&self, _url: &str) -> (r: Option<Vec<u8>>)
        ensures
            r is None,
    {
        None
    }
}

// ---------------------------------------------------------------------------
// Decoded pixels
// ---------------------------------------------------------------------------
/// Decoded pixels and their dimensions.
#[derive(Clone, Debug)]
pub struct DecodedImage {
    pub width: u32,
    pub height: u32,
    /// Straight RGBA, one byte each, row by row without gaps.
    pub rgba: Vec<u8>,
}

/// What a decoded image holds: width, height and pixel bytes.
pub type Pixels = (u32, u32, Seq<u8>);

impl DecodedImage {
    /// Whether there are four bytes for each pixel.
    pub open spec fn wf(&self) -> bool {
        self.rgba@.len() == self.width * self.height * 4
    }

    /// What the image holds.
    pub open spec fn pixels(&self) -> Pixels {
        (self.width, self.height, self.rgba@)
    }

    /// The four bytes of the pixel at column `x` of row `y`.
    pub open spec fn pixel(&self, x: int, y: int) -> Seq<u8> {
        self.rgba@.subrange((y * self.width + x) * 4, (y * self.width + x) * 4 + 4)
    }
}

/// `v`, or `limit` where `v` is beyond it.
pub open spec fn at_most(v: int, limit: int) -> int {
    if v < limit {
        v
    } else {
        limit
    }
}

/// The bytes of `n` rows of an image, `w` pixels from column `x` on, from row
/// `y` on.
pub open spec fn cut_rows(image: Pixels, x: int, y: int, w: int, n: nat) -> Seq<u8>
    decreases n,
{
    if n == 0 {
        Seq::empty()
    } else {
        let start = ((y + n - 1) * image.0 + x) * 4;
        cut_rows(image, x, y, w, (n - 1) as nat) + image.2.subrange(start, start + w * 4)
    }
}

/// The part of an image in the rectangle at `(sx, sy)` of size `sw` by `sh`,
/// clamped to the image; `None` where nothing of it is left.
pub open spec fn cropped(image: Pixels, sx: int, sy: int, sw: int, sh: int) -> Option<Pixels> {
    let x = at_most(sx, image.0 as int);
    let y = at_most(sy, image.1 as int);
    let w = at_most(sw, image.0 - x);
    let h = at_most(sh, image.1 - y);
    if w == 0 || h == 0 {
        None
    } else {
        Some((w as u32, h as u32, cut_rows(image, x, y, w, h as nat)))
    }
}

proof fn lemma_row_in_image(width: int, height: int, x: int, w: int, row: int)
    by (nonlinear_arith)
    requires
        0 <= x,
        0 <= w,
        x + w <= width,
        0 <= row < height,
    ensures
        0 <= (row * width + x) * 4,
        (row * width + x) * 4 + w * 4 <= width * height * 4,
        0 <= row * width <= width * height,
        row * width + x <= width * height,
{
}

proof fn lemma_cut_rows_len(image: Pixels, x: int, y: int, w: int, n: nat)
    requires
        image.2.len() == image.0 * image.1 * 4,
        0 <= x,
        0 <= w,
        x + w <= image.0,
        0 <= y,
        y + n <= image.1,
    ensures
        cut_rows(image, x, y, w, n).len() == w * n * 4,
    decreases n,
{
    if n > 0 {
        lemma_cut_rows_len(image, x, y, w, (n - 1) as nat);
        lemma_row_in_image(image.0 as int, image.1 as int, x, w, y + n - 1);
        let m = (n - 1) as nat;
        assert(w * m * 4 + w * 4 == w * n * 4) by (nonlinear_arith)
            requires
                m == n - 1,
        ;
    } else {
        assert(w * n * 4 == 0) by (nonlinear_arith)
            requires
                n == 0,
        ;
    }
}

/// Where the bytes of some pixels in one of the cut rows come from: `count` of
/// them, from column `px` of row `py` on.
proof fn lemma_cut_rows_part(
    image: Pixels,
    x: int,
    y: int,
    w: int,
    n: nat,
    px: int,
    py: int,
    count: int,
)
    requires
        image.2.len() == image.0 * image.1 * 4,
        0 <= x,
        0 <= px,
        0 <= count,
        px + count <= w,
        x + w <= image.0,
        0 <= y,
        0 <= py < n,
        y + n <= image.1,
    ensures
        0 <= (py * w + px) * 4,
        (py * w + px) * 4 + count * 4 <= cut_rows(image, x, y, w, n).len(),
        cut_rows(image, x, y, w, n).subrange((py * w + px) * 4, (py * w + px) * 4 + count * 4)
            == image.2.subrange(
            ((y + py) * image.0 + (x + px)) * 4,
            ((y + py) * image.0 + (x + px)) * 4 + count * 4,
        ),
    decreases n,
{
    lemma_cut_rows_len(image, x, y, w, n);
    lemma_cut_rows_len(image, x, y, w, (n - 1) as nat);
    lemma_row_in_image(w, n as int, px, count, py);
    let before = cut_rows(image, x, y, w, (n - 1) as nat);
    let all = cut_rows(image, x, y, w, n);
    let at = (py * w + px) * 4;
    let from = ((y + py) * image.0 + (x + px)) * 4;
    assert(w as int * n as int * 4 == all.len());
    if py < n - 1 {
        lemma_cut_rows_part(image, x, y, w, (n - 1) as nat, px, py, count);
        assert(all.subrange(at, at + count * 4) =~= before.subrange(at, at + count * 4));
    } else {
        let start = ((y + n - 1) * image.0 + x) * 4;
        lemma_row_in_image(image.0 as int, image.1 as int, x, w, y + n - 1);
        assert(at == before.len() + px * 4) by (nonlinear_arith)
            requires
                before.len() == w * (n - 1) * 4,
                py == n - 1,
                at == (py * w + px) * 4,
        ;
        assert(from == start + px * 4) by (nonlinear_arith)
            requires
                py == n - 1,
                start == ((y + n - 1) * image.0 + x) * 4,
                from == ((y + py) * image.0 + (x + px)) * 4,
        ;
        assert(all.subrange(at, at + count * 4) =~= image.2.subrange(from, from + count * 4));
    }
}

proof fn lemma_cut_rows_twice(
    image: Pixels,
    part: Pixels,
    x1: int,
    y1: int,
    x2: int,
    y2: int,
    w2: int,
    n: nat,
)
    requires
        image.2.len() == image.0 * image.1 * 4,
        0 <= x1,
        0 <= y1,
        x1 + part.0 <= image.0,
        y1 + part.1 <= image.1,
        part.2 == cut_rows(image, x1, y1, part.0 as int, part.1 as nat),
        0 <= x2,
        0 <= y2,
        0 <= w2,
        x2 + w2 <= part.0,
        y2 + n <= part.1,
    ensures
        cut_rows(part, x2, y2, w2, n) == cut_rows(image, x1 + x2, y1 + y2, w2, n),
    decreases n,
{
    if n > 0 {
        lemma_cut_rows_twice(image, part, x1, y1, x2, y2, w2, (n - 1) as nat);
        let row = y2 + n - 1;
        lemma_cut_rows_part(image, x1, y1, part.0 as int, part.1 as nat, x2, row, w2);
        assert(y1 + row == y1 + y2 + n - 1);
    }
}

/// A crop of a crop is one crop, at the sum of the two corners.
pub proof fn a_crop_of_a_crop_is_one_crop(
    image: DecodedImage,
    part: DecodedImage,
    x1: int,
    y1: int,
    w1: int,
    h1: int,
    x2: int,
    y2: int,
    w2: int,
    h2: int,
)
    requires
        image.wf(),
        0 <= x1 && 0 <= y1 && 0 <= w1 && 0 <= h1,
        x1 + w1 <= image.width,
        y1 + h1 <= image.height,
        cropped(image.pixels(), x1, y1, w1, h1) == Some(part.pixels()),
        0 <= x2 && 0 <= y2 && 0 <= w2 && 0 <= h2,
        x2 + w2 <= w1,
        y2 + h2 <= h1,
    ensures
        cropped(part.pixels(), x2, y2, w2, h2) == cropped(
            image.pixels(),
            x1 + x2,
            y1 + y2,
            w2,
            h2,
        ),
        w2 > 0 && h2 > 0 ==> cropped(part.pixels(), x2, y2, w2, h2) is Some,
{
    lemma_cut_rows_twice(image.pixels(), part.pixels(), x1, y1, x2, y2, w2, h2 as nat);
}

/// A pixel of a cropped image is the pixel of the whole image that stands as
/// far from the rectangle's corner.
pub proof fn cropping_moves_pixels(
    image: DecodedImage,
    part: DecodedImage,
    sx: int,
    sy: int,
    sw: int,
    sh: int,
    x: int,
    y: int,
)
    requires
        image.wf(),
        0 <= sx,
        0 <= sy,
        0 <= sw,
        0 <= sh,
        cropped(image.pixels(), sx, sy, sw, sh) == Some(part.pixels()),
        0 <= x < part.width,
        0 <= y < part.height,
    ensures
        part.wf(),
        part.pixel(x, y) == image.pixel(
            at_most(sx, image.width as int) + x,
            at_most(sy, image.height as int) + y,
        ),
{
    let cx = at_most(sx, image.width as int);
    let cy = at_most(sy, image.height as int);
    lemma_cut_rows_len(image.pixels(), cx, cy, part.width as int, part.height as nat);
    lemma_cut_rows_part(
        image.pixels(),
        cx,
        cy,
        part.width as int,
        part.height as nat,
        x,
        y,
        1,
    );
}

impl DecodedImage {
    /// The part of the image in the rectangle at `(sx, sy)` of size `sw` by
    /// `sh`, clamped to the image, as an image of its own. `None` where the
    /// clamped rectangle has no area.
    pub fn crop(&self, sx: u32, sy: u32, sw: u32, sh: u32) -> (r: Option<DecodedImage>)
        requires
            self.wf(),
        ensures
            match r {
                Some(part) => {
                    &&& part.wf()
                    &&& cropped(self.pixels(), sx as int, sy as int, sw as int, sh as int) == Some(
                        part.pixels(),
                    )
                },
                None => cropped(
                    self.pixels(),
                    sx as int,
                    sy as int,
                    sw as int,
                    sh as int,
                ) is None,
            },
    {
        let x: u32 = if sx < self.width { sx } else { self.width };
        let y: u32 = if sy < self.height { sy } else { self.height };
        let w: u32 = if sw < self.width - x { sw } else { self.width - x };
        let h: u32 = if sh < self.height - y { sh } else { self.height - y };
        if w == 0 || h == 0 {
            return None;
        }
        let total: usize = self.rgba.len();
        let mut rgba: Vec<u8> = Vec::new();
        let mut row: u32 = 0;
        while row < h
            invariant
                self.wf(),
                total == self.rgba@.len(),
                row <= h,
                x + w <= self.width,
                y + h <= self.height,
                rgba@ == cut_rows(self.pixels(), x as int, y as int, w as int, row as nat),
            decreases h - row,
        {
            proof {
                lemma_row_in_image(
                    self.width as int,
                    self.height as int,
                    x as int,
                    w as int,
                    (y + row) as int,
                );
            }
            let start: usize = ((y + row) as usize * self.width as usize + x as usize) * 4;
            let end: usize = start + w as usize * 4;
            let ghost before = rgba@;
            let mut i: usize = start;
            while i < end
                invariant
                    start <= i <= end <= self.rgba@.len(),
                    rgba@ == before + self.rgba@.subrange(start as int, i as int),
                decreases end - i,
            {
                rgba.push(self.rgba[i]);
                i += 1;
                assert(rgba@ =~= before + self.rgba@.subrange(start as int, i as int));
            }
            row += 1;
        }
        proof {
            lemma_cut_rows_len(self.pixels(), x as int, y as int, w as int, h as nat);
        }
        Some(DecodedImage { width: w, height: h, rgba })
    }
}

// ---------------------------------------------------------------------------
// Outside decoders
// ---------------------------------------------------------------------------
/// The bytes that a `data:` URL holds, as the Fetch standard has them; `None`
/// where the text is no such URL or its base64 is malformed.
pub uninterp spec fn data_uri_body(src: Seq<char>) -> Option<Seq<u8>>;

/// `data_url::DataUrl::process` and `decode_to_vec` give the body of a `data:`
/// URL, or an error. The result is named, not spelled out.
#[verifier::external_body]
fn data_uri_bytes(src: &str) -> (r: Option<Vec<u8>>)
    ensures
        data_uri_body(src@) == (match r {
            Some(b) => Some(b@),
            None => None,
        }),
{
    let url = data_url::DataUrl::process(src).ok()?;
    let (bytes, _fragment) = url.decode_to_vec().ok()?;
    Some(bytes)
}

/// `image::load_from_memory` decodes a raster image and `to_rgba8` converts it
/// to RGBA, in a buffer with four bytes for each pixel. Which images it reads and
/// what their pixels are is not said: the process may add formats of its own.
#[verifier::external_body]
pub(crate) fn raster_image(bytes: &[u8]) -> (r: Option<DecodedImage>)
    ensures
        r matches Some(i) ==> i.wf(),
{
    let rgba = image::load_from_memory(bytes).ok()?.to_rgba8();
    let (width, height) = rgba.dimensions();
    Some(DecodedImage { width, height, rgba: rgba.into_raw() })
}

/// A parsed SVG document.
#[verifier::external_type_specification]
#[verifier::external_body]
pub struct ExSvgTree(resvg::usvg::Tree);

/// Whether the bytes of a file, gzipped or not, are an SVG document that has a
/// size.
pub uninterp spec fn is_svg(bytes: Seq<u8>) -> bool;

/// Whether the bytes of a file begin as gzipped ones do.
pub open spec fn is_gzipped(bytes: Seq<u8>) -> bool {
    bytes.len() >= 2 && bytes[0] == 0x1f && bytes[1] == 0x8b
}

/// `usvg::Tree::from_data` parses an SVG document, gzipped or not. Which bytes it
/// accepts is named, not spelled out; what is not gzipped has to be UTF-8. What
/// the parsed document holds is not said: an `<image>` in it may name a file on
/// disk.
#[verifier::external_body]
pub(crate) fn svg_tree(bytes: &[u8]) -> (r: Option<resvg::usvg::Tree>)
    ensures
        r is Some == is_svg(bytes@),
        !is_gzipped(bytes@) && !valid_utf8(bytes@) ==> r is None,
{
    resvg::usvg::Tree::from_data(bytes, &resvg::usvg::Options::default()).ok()
}

/// Whether a width and height can be those of an SVG document: both are positive
/// and finite.
pub open spec fn is_svg_size(size: (Bits, Bits)) -> bool {
    &&& float_bits::lt(0, size.0) && float_bits::is_finite(size.0)
    &&& float_bits::lt(0, size.1) && float_bits::is_finite(size.1)
}

/// The width and height of an SVG document.
pub uninterp spec fn tree_size(tree: resvg::usvg::Tree) -> (Bits, Bits);

/// `usvg::Tree::size` gives the width and height of an SVG document, which are
/// positive and finite. Which they are is not said: a document without a size of
/// its own is as large as what it shows, and that may be a file on disk.
#[verifier::external_body]
pub(crate) fn svg_size(tree: &resvg::usvg::Tree) -> (r: (Bits, Bits))
    ensures
        r == tree_size(*tree),
        is_svg_size(r),
{
    let size = tree.size();
    (size.width().to_bits(), size.height().to_bits())
}

/// `resvg::render` paints an SVG document on a `tiny_skia::Pixmap` of the given
/// size, whose buffer holds four bytes for each pixel. What they are is not
/// said: the document may show a file on disk.
#[verifier::external_body]
pub(crate) fn svg_pixels(tree: &resvg::usvg::Tree, width: u32, height: u32) -> (r: Vec<u8>)
    requires
        1 <= width <= 16384,
        1 <= height <= 16384,
    ensures
        r@.len() == width * height * 4,
{
    let mut pixmap = resvg::tiny_skia::Pixmap::new(width, height).unwrap();
    resvg::render(tree, resvg::tiny_skia::Transform::identity(), &mut pixmap.as_mut());
    pixmap.take()
}

// ---------------------------------------------------------------------------
// SVG
// ---------------------------------------------------------------------------
/// A color component without the alpha `a` that it was multiplied by, rounded
/// to the nearest and clamped.
pub open spec fn straight(c: u8, a: u8) -> u8 {
    if a == 0 || a == 255 {
        c
    } else if (c * 255 + a / 2) / a as int > 255 {
        255
    } else {
        ((c * 255 + a / 2) / a as int) as u8
    }
}

/// Premultiplied RGBA bytes as straight ones.
pub open spec fn unpremultiplied(p: Seq<u8>) -> Seq<u8> {
    Seq::new(
        p.len(),
        |i: int|
            if i % 4 == 3 || i / 4 * 4 + 3 >= p.len() {
                p[i]
            } else {
                straight(p[i], p[i / 4 * 4 + 3])
            },
    )
}

fn straighten(c: u8, a: u8) -> (r: u8)
    ensures
        r == straight(c, a),
{
    if a == 0 || a == 255 {
        return c;
    }
    let v: u32 = (c as u32 * 255 + a as u32 / 2) / a as u32;
    if v > 255 {
        255
    } else {
        v as u8
    }
}

/// Turns premultiplied RGBA bytes into straight ones.
pub fn unpremultiply(p: Vec<u8>) -> (r: Vec<u8>)
    ensures
        r@ == unpremultiplied(p@),
{
    let mut out: Vec<u8> = Vec::new();
    let mut i: usize = 0;
    while i < p.len()
        invariant
            i <= p@.len(),
            out@ == unpremultiplied(p@).take(i as int),
        decreases p.len() - i,
    {
        let at: usize = i / 4 * 4;
        let b: u8 = if i % 4 == 3 || p.len() - at <= 3 {
            p[i]
        } else {
            straighten(p[i], p[at + 3])
        };
        out.push(b);
        assert(b == unpremultiplied(p@)[i as int]);
        i += 1;
        assert(out@ =~= unpremultiplied(p@).take(i as int));
    }
    assert(unpremultiplied(p@).take(p@.len() as int) =~= unpremultiplied(p@));
    out
}

/// Whether an SVG document of this size is painted: it has an area, and
/// neither side is beyond 16384 pixels.
pub open spec fn paintable(width: u32, height: u32) -> bool {
    1 <= width <= 16384 && 1 <= height <= 16384
}

/// The size in whole pixels that an SVG document of the given width and height
/// is painted at, `None` where it is not painted.
pub fn svg_extent(width: Bits, height: Bits) -> (r: Option<(u32, u32)>)
    ensures
        r == (if paintable(
            float_bits::ceil_u32_of(width),
            float_bits::ceil_u32_of(height),
        ) {
            Some((float_bits::ceil_u32_of(width), float_bits::ceil_u32_of(height)))
        } else {
            None
        }),
{
    let w: u32 = ceil_u32(width);
    let h: u32 = ceil_u32(height);
    if w == 0 || h == 0 || w > 16384 || h > 16384 {
        None
    } else {
        Some((w, h))
    }
}

/// The image that a painted SVG document is, from its premultiplied pixels.
pub fn svg_image(width: u32, height: u32, painted: Vec<u8>) -> (r: DecodedImage)
    requires
        painted@.len() == width * height * 4,
    ensures
        r.width == width,
        r.height == height,
        r.rgba@ == unpremultiplied(painted@),
        r.wf(),
{
    DecodedImage { width, height, rgba: unpremultiply(painted) }
}

/// Whether `r` is a painting of an SVG document at its size, rounded up: none where
/// that has no area or is too large, else the straight pixels of what the renderer
/// paints at that size.
pub open(crate) spec fn is_painting(tree: resvg::usvg::Tree, r: Option<DecodedImage>) -> bool {
    let width = float_bits::ceil_u32_of(tree_size(tree).0);
    let height = float_bits::ceil_u32_of(tree_size(tree).1);
    if paintable(width, height) {
        exists|painted: Vec<u8>| #[trigger]
            call_ensures(svg_pixels, (&tree, width, height), painted) && match r {
                Some(i) => {
                    &&& i.width == width
                    &&& i.height == height
                    &&& i.rgba@ == unpremultiplied(painted@)
                    &&& i.wf()
                },
                None => false,
            }
    } else {
        r is None
    }
}

/// Whether `r` can be what some bytes are painted as: nothing where they are no
/// SVG document, else a painting of the document that they parse to.
pub open(crate) spec fn can_paint_to(bytes: Seq<u8>, r: Option<DecodedImage>) -> bool {
    exists|file: &[u8], tree: Option<resvg::usvg::Tree>|
        {
            &&& file@ == bytes
            &&& #[trigger] call_ensures(svg_tree, (file,), tree)
            &&& tree is Some == is_svg(bytes)
            &&& match tree {
                Some(tree) => is_svg_size(tree_size(tree)) && is_painting(tree, r),
                None => r is None,
            }
        }
}

/// Paints an SVG document at its own size. `None` where it does not parse, has
/// no area or is too large. The size of a document that gives none, and the
/// pixels of any, rest with the renderer, which may show files.
pub fn decode_svg_bytes(bytes: &[u8]) -> (r: Option<DecodedImage>)
    ensures
        can_paint_to(bytes@, r),
        !is_svg(bytes@) ==> r is None,
        r matches Some(i) ==> i.wf() && paintable(i.width, i.height),
        !is_gzipped(bytes@) && !valid_utf8(bytes@) ==> r is None,
{
    let parsed = svg_tree(bytes);
    let ghost found = parsed;
    assert(call_ensures(svg_tree, (bytes,), found));
    let tree = match parsed {
        Some(tree) => tree,
        None => return None,
    };
    let size = svg_size(&tree);
    let r = match svg_extent(size.0, size.1) {
        Some((width, height)) => {
            let painted = svg_pixels(&tree, width, height);
            let ghost pixels = painted;
            assert(call_ensures(svg_pixels, (&tree, width, height), pixels));
            Some(svg_image(width, height, painted))
        },
        None => None,
    };
    assert(is_painting(tree, r));
    r
}

// ---------------------------------------------------------------------------
// Any image
// ---------------------------------------------------------------------------
/// Whether `r` can be what the bytes of an image file decode to: the raster image
/// that they are read as, else what the SVG renderer makes of them.
pub open(crate) spec fn can_decode_to(bytes: Seq<u8>, r: Option<DecodedImage>) -> bool {
    exists|file: &[u8], image: Option<DecodedImage>|
        {
            &&& file@ == bytes
            &&& #[trigger] call_ensures(raster_image, (file,), image)
            &&& match image {
                Some(i) => r == Some(i) && i.wf(),
                None => can_paint_to(bytes, r),
            }
        }
}

/// Decodes the bytes of an image file: as a raster image, or else as SVG.
pub fn decode_image_bytes(bytes: &[u8]) -> (r: Option<DecodedImage>)
    ensures
        can_decode_to(bytes@, r),
        r matches Some(i) ==> i.wf(),
{
    let read = raster_image(bytes);
    let ghost found = read;
    assert(call_ensures(raster_image, (bytes,), found));
    match read {
        Some(i) => Some(i),
        None => decode_svg_bytes(bytes),
    }
}

/// Decodes the image that a `data:` URI holds. `None` where the URI is
/// malformed or holds no image.
pub fn decode_data_uri(src: &str) -> (r: Option<DecodedImage>)
    ensures
        match data_uri_body(src@) {
            Some(b) => can_decode_to(b, r),
            None => r is None,
        },
{
    match data_uri_bytes(src) {
        Some(bytes) => decode_image_bytes(bytes.as_slice()),
        None => None,
    }
}

/// Whether a URL is a `data:` URI.
pub open spec fn is_data_uri(src: Seq<char>) -> bool {
    src.len() >= 5 && src.take(5) == "data:"@
}

/// Whether a URL is a `data:` URI.
pub fn has_data_scheme(src: &str) -> (r: bool)
    ensures
        r == is_data_uri(src@),
{
    let chars = chars_of(src);
    if chars.len() < 5 {
        return false;
    }
    let head = sub_chars(chars.as_slice(), 0, 5);
    assert(head@ =~= src@.take(5));
    let scheme = chars_of("data:");
    chars_eq(head.as_slice(), scheme.as_slice())
}

/// Whether `bytes` can be the bytes that stand at the URL `src`: those that a
/// `data:` URI holds, else what the loader answers.
pub open spec fn can_supply<L: ImageLoader>(
    loader: &L,
    src: Seq<char>,
    bytes: Option<Seq<u8>>,
) -> bool {
    if is_data_uri(src) {
        bytes == data_uri_body(src)
    } else {
        exists|url: &str, b: Option<Vec<u8>>|
            {
                &&& url@ == src
                &&& #[trigger] call_ensures(L::load, (loader, url), b)
                &&& bytes == (match b {
                    Some(v) => Some(v@),
                    None => None,
                })
            }
    }
}

/// Whether `r` can be the image at the URL `src`.
pub open(crate) spec fn can_show<L: ImageLoader>(
    loader: &L,
    src: Seq<char>,
    r: Option<DecodedImage>,
) -> bool {
    exists|bytes: Option<Seq<u8>>| #[trigger]
        can_supply(loader, src, bytes) && match bytes {
            Some(b) => can_decode_to(b, r),
            None => r is None,
        }
}

/// A `data:` URI does not reach the loader: what it shows is the same with any.
pub proof fn a_data_uri_needs_no_loader<A: ImageLoader, B: ImageLoader>(
    a: &A,
    b: &B,
    src: Seq<char>,
    r: Option<DecodedImage>,
)
    requires
        is_data_uri(src),
    ensures
        can_show(a, src, r) == can_show(b, src, r),
{
    if can_show(a, src, r) {
        let bytes = choose|bytes: Option<Seq<u8>>| #[trigger]
            can_supply(a, src, bytes) && match bytes {
                Some(b) => can_decode_to(b, r),
                None => r is None,
            };
        assert(can_supply(b, src, bytes));
    }
    if can_show(b, src, r) {
        let bytes = choose|bytes: Option<Seq<u8>>| #[trigger]
            can_supply(b, src, bytes) && match bytes {
                Some(b) => can_decode_to(b, r),
                None => r is None,
            };
        assert(can_supply(a, src, bytes));
    }
}

fn decode_at<L: ImageLoader>(loader: &L, src: &str) -> (r: Option<DecodedImage>)
    ensures
        can_show(loader, src@, r),
{
    if has_data_scheme(src) {
        let r = decode_data_uri(src);
        assert(can_supply(loader, src@, data_uri_body(src@)));
        r
    } else {
        match loader.load(src) {
            Some(bytes) => {
                let r = decode_image_bytes(bytes.as_slice());
                assert(call_ensures(L::load, (loader, src), Some(bytes)));
                assert(can_supply(loader, src@, Some(bytes@)));
                r
            },
            None => {
                assert(call_ensures(L::load, (loader, src), None::<Vec<u8>>));
                assert(can_supply(loader, src@, None));
                None
            },
        }
    }
}

/// The image stored for a node.
pub open spec fn stored(m: Map<NodeId, DecodedImage>, id: NodeId) -> Option<DecodedImage> {
    if m.contains_key(id) {
        Some(m[id])
    } else {
        None
    }
}

/// Whether a map can be what a loader makes of the URLs of some nodes: it holds
/// the image at the URL of each of `nodes` that has one, and nothing else.
pub open(crate) spec fn shows_urls<L: ImageLoader>(
    m: Map<NodeId, DecodedImage>,
    nodes: Set<NodeId>,
    url: spec_fn(NodeId) -> Option<Seq<char>>,
    loader: &L,
) -> bool {
    forall|id: NodeId|
        match url(id) {
            Some(src) if nodes.contains(id) => can_show(loader, src, #[trigger] stored(m, id)),
            _ => stored(m, id) is None,
        }
}

/// Decodes the image at the URL `src`, if there is one, and stores it for `id`.
fn decode_into<L: ImageLoader>(
    loader: &L,
    src: Option<&str>,
    id: NodeId,
    images: &mut NodeMap<DecodedImage>,
    Ghost(nodes): Ghost<Set<NodeId>>,
    Ghost(url): Ghost<spec_fn(NodeId) -> Option<Seq<char>>>,
)
    requires
        shows_urls(old(images)@, nodes, url, loader),
        !nodes.contains(id),
        url(id) == (match src {
            Some(s) => Some(s@),
            None => None,
        }),
    ensures
        shows_urls(final(images)@, nodes.insert(id), url, loader),
{
    let ghost before = images@;
    assert(stored(before, id) is None);
    if let Some(s) = src {
        let decoded = decode_at(loader, s);
        if let Some(image) = decoded {
            images.insert(id, image);
        }
    }
    assert forall|n: NodeId|
        match url(n) {
            Some(u) if nodes.insert(id).contains(n) => can_show(
                loader,
                u,
                #[trigger] stored(images@, n),
            ),
            _ => stored(images@, n) is None,
        } by {
        if n != id {
            assert(stored(images@, n) == stored(before, n));
        }
    }
}

/// The nodes among the first `i` of a walk.
spec fn visited(walk: Seq<NodeId>, i: int) -> Set<NodeId> {
    walk.take(i).to_set()
}

proof fn lemma_visited_step(walk: Seq<NodeId>, i: int)
    requires
        0 <= i < walk.len(),
        walk.no_duplicates(),
    ensures
        !visited(walk, i).contains(walk[i]),
        visited(walk, i + 1) == visited(walk, i).insert(walk[i]),
{
    let a = walk.take(i);
    let b = walk.take(i + 1);
    assert(b =~= a.push(walk[i]));
    assert forall|x: NodeId| b.to_set().contains(x) == a.to_set().insert(walk[i]).contains(x) by {
        if b.contains(x) {
            let k = choose|k: int| 0 <= k < b.len() && b[k] == x;
            if k < i {
                assert(a[k] == x);
            }
        }
        if a.contains(x) {
            let k = choose|k: int| 0 <= k < a.len() && a[k] == x;
            assert(b[k] == x);
        }
        if x == walk[i] {
            assert(b[i] == x);
        }
    }
    assert(b.to_set() =~= a.to_set().insert(walk[i]));
}

proof fn lemma_visited_all(dom: &Dom, top: NodeId)
    requires
        dom.wf(),
        dom.has(top),
    ensures
        visited(dom.stack_order(top), dom.stack_order(top).len() as int) == subtree(dom, top),
        visited(dom.stack_order(top), 0) == Set::<NodeId>::empty(),
{
    let walk = dom.stack_order(top);
    assert(walk.take(walk.len() as int) =~= walk);
    assert forall|x: NodeId| walk.to_set().contains(x) == subtree(dom, top).contains(x) by {
        dom.walks_meet_exactly_the_subtree(x, top);
    }
    assert(walk.to_set() =~= subtree(dom, top));
    assert(walk.take(0).to_set() =~= Set::<NodeId>::empty());
}

/// A node and its descendants.
pub open spec fn subtree(dom: &Dom, top: NodeId) -> Set<NodeId> {
    Set::new(|id: NodeId| dom.is_within(id, top))
}

// ---------------------------------------------------------------------------
// The images of <img> elements
// ---------------------------------------------------------------------------
/// Where the image of an `<img>` element stands.
pub open spec fn img_src(dom: &Dom, id: NodeId) -> Option<Seq<char>> {
    if dom.is_named(id, "img"@) {
        dom.plain_attr(id, "src"@)
    } else {
        None
    }
}

/// The decoded images of `<img>` elements, by node.
pub struct ImagePlane {
    images: NodeMap<DecodedImage>,
}

impl ImagePlane {
    /// The image of each node that has one.
    pub closed spec fn view(&self) -> Map<NodeId, DecodedImage> {
        self.images@
    }

    /// A plane without images.
    pub fn new() -> (r: ImagePlane)
        ensures
            r@ == Map::<NodeId, DecodedImage>::empty(),
    {
        ImagePlane { images: NodeMap::new() }
    }

    /// Decodes the `<img>` elements whose `src` is a `data:` URI.
    pub fn decode_from_dom(dom: &Dom) -> (r: ImagePlane)
        requires
            dom.wf(),
        ensures
            shows_urls(
                r@,
                subtree(dom, dom.root()),
                |id: NodeId| img_src(dom, id),
                &NoImageLoader,
            ),
    {
        ImagePlane::decode_from_dom_with_loader(dom, &NoImageLoader)
    }

    /// Decodes every `<img>` element with a `src`: a `data:` URI from itself,
    /// any other URL by way of `loader`.
    pub fn decode_from_dom_with_loader<L: ImageLoader>(dom: &Dom, loader: &L) -> (r: ImagePlane)
        requires
            dom.wf(),
        ensures
            shows_urls(r@, subtree(dom, dom.root()), |id: NodeId| img_src(dom, id), loader),
    {
        let mut images: NodeMap<DecodedImage> = NodeMap::new();
        let walk = dom.walk_with_stack(dom.document());
        let ghost url = |id: NodeId| img_src(dom, id);
        proof {
            dom.lemma_stack_order_visits(dom.root());
            lemma_visited_all(dom, dom.root());
        }
        let mut i: usize = 0;
        while i < walk.len()
            invariant
                dom.wf(),
                i <= walk@.len(),
                walk@ == dom.stack_order(dom.root()),
                walk@.no_duplicates(),
                url == (|id: NodeId| img_src(dom, id)),
                shows_urls(images@, visited(walk@, i as int), url, loader),
            decreases walk.len() - i,
        {
            let id = walk[i];
            proof {
                dom.walks_meet_exactly_the_subtree(id, dom.root());
                assert(walk@.contains(walk@[i as int]));
                lemma_visited_step(walk@, i as int);
            }
            let src = if dom.named(id, "img") {
                dom.plain_attribute(id, "src")
            } else {
                None
            };
            decode_into(
                loader,
                src,
                id,
                &mut images,
                Ghost(visited(walk@, i as int)),
                Ghost(url),
            );
            i += 1;
        }
        ImagePlane { images }
    }

    /// The image of `id`.
    pub fn get(&self, id: NodeId) -> (r: Option<&DecodedImage>)
        ensures
            r == (if self@.contains_key(id) {
                Some(&self@[id])
            } else {
                None
            }),
    {
        self.images.get(id)
    }

    /// Whether the plane has no image.
    pub fn is_empty(&self) -> (r: bool)
        ensures
            r == (self@.dom().len() == 0),
    {
        self.images.len() == 0
    }

    /// How many images the plane has.
    pub fn len(&self) -> (r: usize)
        ensures
            r == self@.dom().len(),
    {
        self.images.len()
    }

    /// The nodes that have an image, each once with it, in no stated order.
    pub fn iter(&self) -> (r: Vec<(NodeId, &DecodedImage)>)
        ensures
            node_map::lists(r@, self@),
    {
        self.images.iter()
    }
}

// ---------------------------------------------------------------------------
// The images that styles name
// ---------------------------------------------------------------------------
/// The first `background-image` layer, where it is a `url()`.
pub open spec fn first_background_url(style: ComputedStyle) -> Option<Seq<char>> {
    if style.background_image@.len() == 0 {
        None
    } else {
        match style.background_image@[0] {
            CssImage::Url(u) => Some(u@),
            _ => None,
        }
    }
}

/// The `url()` that an element's background shows.
pub open spec fn background_url(styles: &StylePlane, id: NodeId) -> Option<Seq<char>> {
    match styles.primary_at(id) {
        Some(s) => first_background_url(s),
        None => None,
    }
}

/// The style of an element's `::before` or `::after`.
pub open spec fn pseudo_at(styles: &StylePlane, id: NodeId, kind: PseudoKind) -> Option<
    ComputedStyle,
> {
    if styles.primary_at(id) is Some {
        match kind {
            PseudoKind::Before => styles.entries@[id].before,
            PseudoKind::After => styles.entries@[id].after,
        }
    } else {
        None
    }
}

/// The `url()` that the background of an element's block-level `::before` or
/// `::after` shows.
pub open spec fn pseudo_background_url(
    styles: &StylePlane,
    id: NodeId,
    kind: PseudoKind,
) -> Option<Seq<char>> {
    match pseudo_at(styles, id, kind) {
        Some(s) => if s.display_outside == DisplayOutside::Block {
            first_background_url(s)
        } else {
            None
        },
        None => None,
    }
}

/// The `url()` that an element's border shows.
pub open spec fn border_url(styles: &StylePlane, id: NodeId) -> Option<Seq<char>> {
    match styles.primary_at(id) {
        Some(s) => match s.border_image_source {
            CssImage::Url(u) => Some(u@),
            _ => None,
        },
        None => None,
    }
}

fn first_url_background(style: &ComputedStyle) -> (r: Option<&str>)
    ensures
        first_background_url(*style) == (match r {
            Some(u) => Some(u@),
            None => None,
        }),
{
    if style.background_image.len() == 0 {
        return None;
    }
    match &style.background_image[0] {
        CssImage::Url(u) => Some(u.as_str()),
        _ => None,
    }
}

/// The `url()` that an element's background shows.
pub fn background_image_url(styles: &StylePlane, id: NodeId) -> (r: Option<&str>)
    ensures
        background_url(styles, id) == (match r {
            Some(u) => Some(u@),
            None => None,
        }),
{
    match styles.primary(id) {
        Some(s) => first_url_background(s),
        None => None,
    }
}

/// The `url()` that the background of an element's block-level `::before` or
/// `::after` shows.
pub fn pseudo_background_image_url(styles: &StylePlane, id: NodeId, kind: PseudoKind) -> (r: Option<
    &str,
>)
    ensures
        pseudo_background_url(styles, id, kind) == (match r {
            Some(u) => Some(u@),
            None => None,
        }),
{
    match styles.get(id) {
        None => None,
        Some(e) => {
            if e.primary.is_none() {
                return None;
            }
            let pseudo = match kind {
                PseudoKind::Before => &e.before,
                PseudoKind::After => &e.after,
            };
            match pseudo {
                Some(s) => if s.display_outside == DisplayOutside::Block {
                    first_url_background(s)
                } else {
                    None
                },
                None => None,
            }
        },
    }
}

/// The `url()` that an element's border shows.
pub fn border_image_url(styles: &StylePlane, id: NodeId) -> (r: Option<&str>)
    ensures
        border_url(styles, id) == (match r {
            Some(u) => Some(u@),
            None => None,
        }),
{
    match styles.primary(id) {
        Some(s) => match &s.border_image_source {
            CssImage::Url(u) => Some(u.as_str()),
            _ => None,
        },
        None => None,
    }
}

/// The decoded images of backgrounds and borders, by element. Unlike those of
/// `<img>` elements they do not size their box.
pub struct BackgroundImagePlane {
    images: NodeMap<DecodedImage>,
    before_images: NodeMap<DecodedImage>,
    after_images: NodeMap<DecodedImage>,
    border_images: NodeMap<DecodedImage>,
}

impl BackgroundImagePlane {
    /// The background image of each element that has one.
    pub closed spec fn backgrounds(&self) -> Map<NodeId, DecodedImage> {
        self.images@
    }

    /// The background image of each `::before` or `::after` that has one.
    pub closed spec fn pseudo_backgrounds(&self, kind: PseudoKind) -> Map<NodeId, DecodedImage> {
        match kind {
            PseudoKind::Before => self.before_images@,
            PseudoKind::After => self.after_images@,
        }
    }

    /// The border image of each element that has one.
    pub closed spec fn borders(&self) -> Map<NodeId, DecodedImage> {
        self.border_images@
    }

    /// A plane without images.
    pub fn new() -> (r: BackgroundImagePlane)
        ensures
            r.backgrounds() == Map::<NodeId, DecodedImage>::empty(),
            forall|kind: PseudoKind| #[trigger]
                r.pseudo_backgrounds(kind) == Map::<NodeId, DecodedImage>::empty(),
            r.borders() == Map::<NodeId, DecodedImage>::empty(),
    {
        BackgroundImagePlane {
            images: NodeMap::new(),
            before_images: NodeMap::new(),
            after_images: NodeMap::new(),
            border_images: NodeMap::new(),
        }
    }

    /// Whether the plane has the images of a document's backgrounds and borders.
    pub open(crate) spec fn shows<L: ImageLoader>(&self, dom: &Dom, styles: &StylePlane, loader: &L) -> bool {
        let nodes = subtree(dom, dom.root());
        &&& shows_urls(
            self.backgrounds(),
            nodes,
            |id: NodeId| background_url(styles, id),
            loader,
        )
        &&& shows_urls(
            self.pseudo_backgrounds(PseudoKind::Before),
            nodes,
            |id: NodeId| pseudo_background_url(styles, id, PseudoKind::Before),
            loader,
        )
        &&& shows_urls(
            self.pseudo_backgrounds(PseudoKind::After),
            nodes,
            |id: NodeId| pseudo_background_url(styles, id, PseudoKind::After),
            loader,
        )
        &&& shows_urls(self.borders(), nodes, |id: NodeId| border_url(styles, id), loader)
    }

    /// Decodes the first `url()` layer of each element's background and of its
    /// block-level `::before` and `::after`, and its border image: a `data:`
    /// URI from itself, any other URL by way of `loader`.
    pub fn decode_from_cascade<L: ImageLoader>(
        dom: &Dom,
        styles: &StylePlane,
        loader: &L,
    ) -> (r: BackgroundImagePlane)
        requires
            dom.wf(),
        ensures
            r.shows(dom, styles, loader),
    {
        let mut images: NodeMap<DecodedImage> = NodeMap::new();
        let mut before_images: NodeMap<DecodedImage> = NodeMap::new();
        let mut after_images: NodeMap<DecodedImage> = NodeMap::new();
        let mut border_images: NodeMap<DecodedImage> = NodeMap::new();
        let walk = dom.walk_with_stack(dom.document());
        let ghost own = |id: NodeId| background_url(styles, id);
        let ghost before = |id: NodeId| pseudo_background_url(styles, id, PseudoKind::Before);
        let ghost after = |id: NodeId| pseudo_background_url(styles, id, PseudoKind::After);
        let ghost border = |id: NodeId| border_url(styles, id);
        proof {
            dom.lemma_stack_order_visits(dom.root());
            lemma_visited_all(dom, dom.root());
        }
        let mut i: usize = 0;
        while i < walk.len()
            invariant
                dom.wf(),
                i <= walk@.len(),
                walk@ == dom.stack_order(dom.root()),
                walk@.no_duplicates(),
                own == (|id: NodeId| background_url(styles, id)),
                before == (|id: NodeId| pseudo_background_url(styles, id, PseudoKind::Before)),
                after == (|id: NodeId| pseudo_background_url(styles, id, PseudoKind::After)),
                border == (|id: NodeId| border_url(styles, id)),
                shows_urls(images@, visited(walk@, i as int), own, loader),
                shows_urls(before_images@, visited(walk@, i as int), before, loader),
                shows_urls(after_images@, visited(walk@, i as int), after, loader),
                shows_urls(border_images@, visited(walk@, i as int), border, loader),
            decreases walk.len() - i,
        {
            let id = walk[i];
            let ghost nodes = visited(walk@, i as int);
            proof {
                lemma_visited_step(walk@, i as int);
            }
            decode_into(
                loader,
                background_image_url(styles, id),
                id,
                &mut images,
                Ghost(nodes),
                Ghost(own),
            );
            decode_into(
                loader,
                pseudo_background_image_url(styles, id, PseudoKind::Before),
                id,
                &mut before_images,
                Ghost(nodes),
                Ghost(before),
            );
            decode_into(
                loader,
                pseudo_background_image_url(styles, id, PseudoKind::After),
                id,
                &mut after_images,
                Ghost(nodes),
                Ghost(after),
            );
            decode_into(
                loader,
                border_image_url(styles, id),
                id,
                &mut border_images,
                Ghost(nodes),
                Ghost(border),
            );
            i += 1;
        }
        BackgroundImagePlane { images, before_images, after_images, border_images }
    }

    /// The background image of `id`.
    pub fn get(&self, id: NodeId) -> (r: Option<&DecodedImage>)
        ensures
            r == (if self.backgrounds().contains_key(id) {
                Some(&self.backgrounds()[id])
            } else {
                None
            }),
    {
        self.images.get(id)
    }

    /// The background image of the `::before` or `::after` of `element`.
    pub fn get_pseudo(&self, element: NodeId, kind: PseudoKind) -> (r: Option<&DecodedImage>)
        ensures
            r == (if self.pseudo_backgrounds(kind).contains_key(element) {
                Some(&self.pseudo_backgrounds(kind)[element])
            } else {
                None
            }),
    {
        match kind {
            PseudoKind::Before => self.before_images.get(element),
            PseudoKind::After => self.after_images.get(element),
        }
    }

    /// The border image of `id`.
    pub fn get_border_image(&self, id: NodeId) -> (r: Option<&DecodedImage>)
        ensures
            r == (if self.borders().contains_key(id) {
                Some(&self.borders()[id])
            } else {
                None
            }),
    {
        self.border_images.get(id)
    }

    /// How many images the plane has.
    pub open spec fn count(&self) -> nat {
        self.backgrounds().dom().len() + self.pseudo_backgrounds(PseudoKind::Before).dom().len()
            + self.pseudo_backgrounds(PseudoKind::After).dom().len() + self.borders().dom().len()
    }

    /// Whether the plane has no image.
    pub fn is_empty(&self) -> (r: bool)
        ensures
            r == (self.count() == 0),
    {
        self.images.len() == 0 && self.before_images.len() == 0 && self.after_images.len() == 0
            && self.border_images.len() == 0
    }

    /// How many images the plane has, as far as a `usize` can count.
    pub fn len(&self) -> (r: usize)
        ensures
            r == at_most(self.count() as int, usize::MAX as int),
    {
        self.images.len().saturating_add(self.before_images.len()).saturating_add(
            self.after_images.len(),
        ).saturating_add(self.border_images.len())
    }
}

// ---------------------------------------------------------------------------
// Laws
// ---------------------------------------------------------------------------
/// A crop has as much of its rectangle as lies in the image, and there is none where
/// nothing of it does.
pub proof fn a_crop_is_as_large_as_fits(image: DecodedImage, sx: int, sy: int, sw: int, sh: int)
    requires
        0 <= sx && 0 <= sy && 0 <= sw && 0 <= sh,
    ensures
        ({
            let part = cropped(image.pixels(), sx, sy, sw, sh);
            let right = if sx + sw < image.width {
                sx + sw
            } else {
                image.width as int
            };
            let bottom = if sy + sh < image.height {
                sy + sh
            } else {
                image.height as int
            };
            &&& part is Some <==> sx < right && sy < bottom
            &&& part matches Some(p) ==> p.0 == right - sx && p.1 == bottom - sy
        }),
{
}

/// A component that was multiplied by its alpha is divided by it again, to the
/// nearest; where it was not multiplied, or nothing is left of it, it stays.
pub proof fn a_component_is_divided_by_its_alpha(c: u8, a: u8)
    ensures
        a == 0 || a == 255 ==> straight(c, a) == c,
        0 < a < 255 && c <= a ==> {
            let off = straight(c, a) * a - c * 255;
            -(a as int) <= 2 * off <= a
        },
        0 < a < 255 && c > a ==> straight(c, a) == 255,
{
    if 0 < a < 255 {
        let v = c * 255 + a as int / 2;
        let q = v / a as int;
        let r = v % a as int;
        vstd::arithmetic::div_mod::lemma_fundamental_div_mod(v, a as int);
        assert(v == a * q + r && 0 <= r < a);
        if c <= a {
            assert(q <= 255) by (nonlinear_arith)
                requires
                    v == a * q + r,
                    0 <= r < a,
                    0 < a < 255,
                    v == c * 255 + a as int / 2,
                    c <= a,
            ;
            assert(0 <= q) by (nonlinear_arith)
                requires
                    v == a * q + r,
                    0 <= r < a,
                    0 < a < 255,
                    v >= 0,
            ;
            assert(straight(c, a) == q);
            assert(q * a == a * q) by (nonlinear_arith);
        } else {
            assert(q >= 255) by (nonlinear_arith)
                requires
                    v == a * q + r,
                    0 <= r < a,
                    0 < a < 255,
                    v >= c * 255,
                    c >= a + 1,
            ;
        }
    }
}

/// Straight pixels have the alpha of the premultiplied ones, and each color its own
/// pixel's alpha taken out.
pub proof fn a_pixel_keeps_its_alpha(p: Seq<u8>, i: int, k: int)
    requires
        p.len() % 4 == 0,
        0 <= i < p.len() / 4,
        0 <= k < 4,
    ensures
        unpremultiplied(p).len() == p.len(),
        k == 3 ==> unpremultiplied(p)[4 * i + k] == p[4 * i + k],
        k < 3 ==> unpremultiplied(p)[4 * i + k] == straight(p[4 * i + k], p[4 * i + 3]),
{
    assert((4 * i + k) % 4 == k);
    assert((4 * i + k) / 4 == i);
}

/// An `<img>` shows what its `src` names; an element's background the first layer of
/// its `background-image` and its border its `border-image-source`, where those are
/// URLs; and a `::before` or `::after` its own background, where it is a block.
pub proof fn an_image_stands_where_its_owner_says(
    dom: &Dom,
    styles: &StylePlane,
    id: NodeId,
    kind: PseudoKind,
)
    ensures
        dom.is_named(id, "img"@) ==> img_src(dom, id) == dom.plain_attr(id, "src"@),
        !dom.is_named(id, "img"@) ==> img_src(dom, id) is None,
        match styles.primary_at(id) {
            Some(s) => {
                &&& background_url(styles, id) is Some <==> s.background_image@.len() > 0
                    && s.background_image@[0] is Url
                &&& background_url(styles, id) matches Some(u) ==> (s.background_image@[0] matches
                    CssImage::Url(v) && v@ == u)
                &&& border_url(styles, id) is Some <==> s.border_image_source is Url
                &&& border_url(styles, id) matches Some(u) ==> (s.border_image_source matches
                    CssImage::Url(v) && v@ == u)
                &&& pseudo_background_url(styles, id, PseudoKind::Before) is Some <==> (
                styles.entries@[id].before matches Some(b) && b.display_outside
                    == DisplayOutside::Block && b.background_image@.len() > 0
                    && b.background_image@[0] is Url)
                &&& pseudo_background_url(styles, id, PseudoKind::Before) matches Some(u) ==> (
                styles.entries@[id].before->0.background_image@[0] matches CssImage::Url(v) && v@
                    == u)
                &&& pseudo_background_url(styles, id, PseudoKind::After) is Some <==> (
                styles.entries@[id].after matches Some(b) && b.display_outside
                    == DisplayOutside::Block && b.background_image@.len() > 0
                    && b.background_image@[0] is Url)
                &&& pseudo_background_url(styles, id, PseudoKind::After) matches Some(u) ==> (
                styles.entries@[id].after->0.background_image@[0] matches CssImage::Url(v) && v@
                    == u)
            },
            None => {
                &&& background_url(styles, id) is None
                &&& border_url(styles, id) is None
                &&& pseudo_background_url(styles, id, kind) is None
            },
        },
{
}

/// A drawing is painted at its own size, each side rounded up to a whole pixel;
/// one whose size cannot be painted gives no image.
pub proof fn a_drawing_is_painted_at_its_size(tree: resvg::usvg::Tree, r: Option<DecodedImage>)
    requires
        is_painting(tree, r),
    ensures
        r is Some <==> paintable(
            float_bits::ceil_u32_of(tree_size(tree).0),
            float_bits::ceil_u32_of(tree_size(tree).1),
        ),
        r matches Some(i) ==> {
            &&& i.width == float_bits::ceil_u32_of(tree_size(tree).0)
            &&& i.height == float_bits::ceil_u32_of(tree_size(tree).1)
            &&& i.rgba@.len() == i.width * i.height * 4
        },
{
    if let Some(i) = r {
        assert(i.wf());
    }
}

/// Only a drawing that can be read gives an image.
pub proof fn only_a_drawing_gives_an_image(bytes: Seq<u8>, r: Option<DecodedImage>)
    requires
        can_paint_to(bytes, r),
    ensures
        r is Some ==> is_svg(bytes),
{
}

} // verus!
