//! The image compositor: flattens a stack of equally-ordered layer images
//! into one image by alpha-over blending, pixel by pixel.

use vstd::prelude::*;
use vstd::arithmetic::div_mod::{lemma_fundamental_div_mod, lemma_fundamental_div_mod_converse};
use image::Pixel;

verus! {

/// One pixel, in RGBA channel order.
#[derive(Clone, Copy, PartialEq, Eq, Structural, Debug)]
pub struct Rgba {
    pub r: u8,
    pub g: u8,
    pub b: u8,
    pub a: u8,
}

/// The channels of the pixel that alpha-over blending of a source pixel
/// (last four arguments) over a destination pixel (first four arguments)
/// produces. Arguments and result are in red, green, blue, alpha order.
pub uninterp spec fn blend_of(dr: u8, dg: u8, db: u8, da: u8, sr: u8, sg: u8, sb: u8, sa: u8) -> (
    u8,
    u8,
    u8,
    u8,
);

/// The pixel that blending `src` over `dst` produces.
pub open spec fn blend_px(dst: Rgba, src: Rgba) -> Rgba {
    let t = blend_of(dst.r, dst.g, dst.b, dst.a, src.r, src.g, src.b, src.a);
    Rgba { r: t.0, g: t.1, b: t.2, a: t.3 }
}

/// Relies on `image::Pixel::blend` for `image::Rgba<u8>`: alpha compositing
/// of one source pixel over one destination pixel. The result depends on
/// the channel values of the two pixels alone.
#[verifier::external_body]
fn blend_rgba(dst: Rgba, src: Rgba) -> (r: Rgba)
    ensures
        (r.r, r.g, r.b, r.a) == blend_of(dst.r, dst.g, dst.b, dst.a, src.r, src.g, src.b, src.a),
        r == blend_px(dst, src),
{
    let mut d = image::Rgba([dst.r, dst.g, dst.b, dst.a]);
    d.blend(&image::Rgba([src.r, src.g, src.b, src.a]));
    Rgba { r: d.0[0], g: d.0[1], b: d.0[2], a: d.0[3] }
}

/// An image as the engine sees it: a row-major pixel buffer.
pub struct Image {
    pub width: u32,
    pub height: u32,
    pub pixels: Vec<Rgba>,
}

/// The mathematical value of an [`Image`].
#[verifier::ext_equal]
pub ghost struct ImgV {
    pub width: nat,
    pub height: nat,
    pub pixels: Seq<Rgba>,
}

impl View for Image {
    type V = ImgV;

    open spec fn view(&self) -> ImgV {
        ImgV { width: self.width as nat, height: self.height as nat, pixels: self.pixels@ }
    }
}

/// A well-formed image holds exactly one pixel per grid cell.
pub open spec fn img_wf(v: ImgV) -> bool {
    v.pixels.len() == v.width * v.height
}

/// The pixel of `v` in column `x` of row `y`.
pub open spec fn pix(v: ImgV, x: int, y: int) -> Rgba {
    v.pixels[y * v.width + x]
}

/// The image that painting `top` over `base` at the origin produces: inside
/// the region the two images share, the source pixel is blended over the
/// destination pixel; outside it, `base` is kept. The result has the
/// dimensions of `base`.
pub open spec fn overlay_spec(base: ImgV, top: ImgV) -> ImgV {
    ImgV {
        width: base.width,
        height: base.height,
        pixels: Seq::new(
            base.pixels.len(),
            |i: int|
                {
                    let x = i % base.width as int;
                    let y = i / base.width as int;
                    if x < top.width && y < top.height {
                        blend_px(base.pixels[i], pix(top, x, y))
                    } else {
                        base.pixels[i]
                    }
                },
        ),
    }
}

/// The buffer position of column `xx` of row `yy` in a row-major image of
/// width `bw`.
pub open spec fn cell_idx(bw: int, yy: int, xx: int) -> int {
    yy * bw + xx
}

proof fn lemma_row_major_bound(y: int, x: int, w: int, h: int)
    by (nonlinear_arith)
    requires
        0 <= x < w,
        0 <= y < h,
    ensures
        0 <= y * w + x < h * w,
{
}

proof fn lemma_div_below(i: int, w: int, h: int)
    by (nonlinear_arith)
    requires
        w > 0,
        0 <= i < h * w,
    ensures
        0 <= i / w < h,
{
}

/// Paints `top` over `base` at the origin, blending pixel by pixel over the
/// region the two images share.
pub fn overlay(base: &mut Image, top: &Image)
    requires
        img_wf(old(base)@),
        img_wf(top@),
    ensures
        img_wf(final(base)@),
        final(base)@ == overlay_spec(old(base)@, top@),
{
    let w: u32 = if base.width < top.width {
        base.width
    } else {
        top.width
    };
    let h: u32 = if base.height < top.height {
        base.height
    } else {
        top.height
    };
    let bw = base.width;
    let bh = base.height;
    let tw = top.width;
    let plen: usize = base.pixels.len();
    let tlen: usize = top.pixels.len();
    let ghost b0 = old(base)@;
    let ghost target = overlay_spec(old(base)@, top@);
    let mut y: u32 = 0;
    while y < h
        invariant
            img_wf(b0),
            img_wf(top@),
            w == (if b0.width < top@.width {
                b0.width
            } else {
                top@.width
            }),
            h == (if b0.height < top@.height {
                b0.height
            } else {
                top@.height
            }),
            bw == b0.width,
            bh == b0.height,
            tw == top@.width,
            plen == b0.pixels.len(),
            tlen == top@.pixels.len(),
            y <= h,
            base.width == b0.width,
            base.height == b0.height,
            base.pixels@.len() == b0.pixels.len(),
            target == overlay_spec(b0, top@),
            forall|yy: int, xx: int|
                0 <= yy < bh as int && 0 <= xx < bw as int ==> base.pixels@[#[trigger] cell_idx(
                    bw as int,
                    yy,
                    xx,
                )] == (if yy < y as int {
                    target.pixels[cell_idx(bw as int, yy, xx)]
                } else {
                    b0.pixels[cell_idx(bw as int, yy, xx)]
                }),
        decreases h - y,
    {
        let mut x: u32 = 0;
        while x < w
            invariant
                img_wf(b0),
                img_wf(top@),
                w == (if b0.width < top@.width {
                    b0.width
                } else {
                    top@.width
                }),
                h == (if b0.height < top@.height {
                    b0.height
                } else {
                    top@.height
                }),
                bw == b0.width,
                bh == b0.height,
                tw == top@.width,
                plen == b0.pixels.len(),
                tlen == top@.pixels.len(),
                y < h,
                x <= w,
                base.width == b0.width,
                base.height == b0.height,
                base.pixels@.len() == b0.pixels.len(),
                target == overlay_spec(b0, top@),
                forall|yy: int, xx: int|
                    0 <= yy < bh as int && 0 <= xx < bw as int ==> base.pixels@[#[trigger] cell_idx(
                        bw as int,
                        yy,
                        xx,
                    )] == (if yy < y as int || (yy == y as int && xx < x as int) {
                        target.pixels[cell_idx(bw as int, yy, xx)]
                    } else {
                        b0.pixels[cell_idx(bw as int, yy, xx)]
                    }),
            decreases w - x,
        {
            proof {
                lemma_row_major_bound(y as int, x as int, bw as int, bh as int);
                lemma_row_major_bound(y as int, x as int, tw as int, top@.height as int);
                lemma_fundamental_div_mod_converse(
                    (y as int) * (bw as int) + (x as int),
                    bw as int,
                    y as int,
                    x as int,
                );
            }
            let idx: usize = (y as usize) * (bw as usize) + (x as usize);
            let tidx: usize = (y as usize) * (tw as usize) + (x as usize);
            proof {
                assert(idx as int == cell_idx(bw as int, y as int, x as int));
            }
            let blended = blend_rgba(base.pixels[idx], top.pixels[tidx]);
            proof {
                assert(target.pixels[idx as int] == blended);
            }
            base.pixels.set(idx, blended);
            proof {
                assert forall|yy: int, xx: int|
                    0 <= yy < bh as int && 0 <= xx < bw as int implies base.pixels@[#[trigger] cell_idx(
                        bw as int,
                        yy,
                        xx,
                    )] == (if yy < y as int || (yy == y as int && xx < x as int + 1) {
                        target.pixels[cell_idx(bw as int, yy, xx)]
                    } else {
                        b0.pixels[cell_idx(bw as int, yy, xx)]
                    }) by {
                    lemma_row_major_bound(yy, xx, bw as int, bh as int);
                    if cell_idx(bw as int, yy, xx) == idx as int {
                        lemma_fundamental_div_mod_converse(
                            yy * (bw as int) + xx,
                            bw as int,
                            yy,
                            xx,
                        );
                    }
                }
            }
            x = x + 1;
        }
        proof {
            assert forall|yy: int, xx: int|
                0 <= yy < bh as int && 0 <= xx < bw as int implies base.pixels@[#[trigger] cell_idx(
                    bw as int,
                    yy,
                    xx,
                )] == (if yy < y as int + 1 {
                    target.pixels[cell_idx(bw as int, yy, xx)]
                } else {
                    b0.pixels[cell_idx(bw as int, yy, xx)]
                }) by {
                lemma_row_major_bound(yy, xx, bw as int, bh as int);
                if yy == y as int && xx >= w as int {
                    lemma_fundamental_div_mod_converse(yy * (bw as int) + xx, bw as int, yy, xx);
                    assert(target.pixels[cell_idx(bw as int, yy, xx)] == b0.pixels[cell_idx(
                        bw as int,
                        yy,
                        xx,
                    )]);
                }
            }
        }
        y = y + 1;
    }
    proof {
        assert forall|i: int| 0 <= i < b0.pixels.len() implies base.pixels@[i]
            == target.pixels[i] by {
            assert(b0.pixels.len() == (bh as int) * (bw as int)) by (nonlinear_arith)
                requires
                    img_wf(b0),
                    bw == b0.width,
                    bh == b0.height,
            ;
            lemma_div_below(i, bw as int, bh as int);
            lemma_fundamental_div_mod(i, bw as int);
            let yy = i / (bw as int);
            let xx = i % (bw as int);
            assert(0 <= xx < bw as int);
            assert(i == yy * (bw as int) + xx) by (nonlinear_arith)
                requires
                    bw as int != 0,
                    i == (bw as int) * (i / (bw as int)) + i % (bw as int),
                    yy == i / (bw as int),
                    xx == i % (bw as int),
            ;
            assert(cell_idx(bw as int, yy, xx) == i);
            if yy >= h as int {
                assert(target.pixels[i] == b0.pixels[i]);
            }
        }
        assert(base@ =~= target);
    }
}

/// The image that flattening the stack `imgs` onto `base` produces, painting
/// each image over the accumulated canvas in sequence order.
pub open spec fn merge_spec(base: ImgV, imgs: Seq<ImgV>) -> ImgV
    decreases imgs.len(),
{
    if imgs.len() == 0 {
        base
    } else {
        overlay_spec(merge_spec(base, imgs.drop_last()), imgs.last())
    }
}

/// Flattens `imgs` onto the canvas `base`, in sequence order. The first
/// image of the stack is painted first, so later images overlay earlier
/// ones.
pub fn merge(base: Image, imgs: &Vec<Image>) -> (r: Image)
    requires
        img_wf(base@),
        forall|k: int| 0 <= k < imgs@.len() ==> img_wf(#[trigger] imgs@[k]@),
    ensures
        img_wf(r@),
        r@ == merge_spec(base@, imgs@.map_values(|img: Image| img@)),
{
    let ghost b0 = base@;
    let ghost views = imgs@.map_values(|img: Image| img@);
    let mut acc = base;
    let mut k: usize = 0;
    while k < imgs.len()
        invariant
            k <= imgs@.len(),
            views == imgs@.map_values(|img: Image| img@),
            img_wf(b0),
            forall|j: int| 0 <= j < imgs@.len() ==> img_wf(#[trigger] imgs@[j]@),
            img_wf(acc@),
            acc@ == merge_spec(b0, views.take(k as int)),
        decreases imgs@.len() - k,
    {
        overlay(&mut acc, &imgs[k]);
        proof {
            assert(views.take(k + 1 as int).drop_last() =~= views.take(k as int));
            assert(views.take(k + 1 as int).last() == views[k as int]);
            assert(acc@ == merge_spec(b0, views.take(k + 1 as int)));
        }
        k = k + 1;
    }
    proof {
        assert(views.take(k as int) =~= views);
    }
    acc
}

/// Law: compositing is deterministic. A fixed base canvas and a fixed stack
/// of layer images always flatten to the same pixels, however often the
/// composition is repeated.
pub proof fn lemma_composite_deterministic(base: ImgV, imgs: Seq<ImgV>, r1: ImgV, r2: ImgV)
    requires
        r1 == merge_spec(base, imgs),
        r2 == merge_spec(base, imgs),
    ensures
        r1 == r2,
{
}

} // verus!
