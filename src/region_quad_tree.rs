use vstd::prelude::*;

use crate::complete_quad_tree::pow2;
use crate::image::{
    Image, Rgba, black, blank, filled, lemma_mse_bound, lemma_row_major, mean_of,
    mse_of,
};

verus! {

/// An axis-aligned rectangle of pixels: top-left corner and size.
#[derive(Clone, Copy, Debug, PartialEq, Eq, Structural)]
pub struct Region {
    pub x: usize,
    pub y: usize,
    pub width: usize,
    pub height: usize,
}

/// An adaptive quad tree: a leaf holds the colour of its region; a branch
/// holds four children, top-left, bottom-left, top-right, bottom-right.
#[derive(Debug)]
pub enum RegionQuadTree {
    Leaf(Region, Rgba),
    Branch(Box<RegionQuadTree>, Box<RegionQuadTree>, Box<RegionQuadTree>, Box<RegionQuadTree>),
}

/// The region a tree covers; that of a branch is put together from its
/// children.
pub open spec fn region_of(t: RegionQuadTree) -> Region
    decreases t,
{
    match t {
        RegionQuadTree::Leaf(r, _) => r,
        RegionQuadTree::Branch(a, b, c, _) => {
            let (ra, rb, rc) = (region_of(*a), region_of(*b), region_of(*c));
            Region {
                x: ra.x,
                y: ra.y,
                width: (ra.width + rc.width) as usize,
                height: (ra.height + rb.height) as usize,
            }
        },
    }
}

/// Every leaf is non-empty, every branch's children tile its region
/// exactly, and no coordinate overflows.
pub open spec fn tiles(t: RegionQuadTree) -> bool
    decreases t,
{
    match t {
        RegionQuadTree::Leaf(r, _) => {
            &&& r.width >= 1
            &&& r.height >= 1
            &&& r.x + r.width <= usize::MAX
            &&& r.y + r.height <= usize::MAX
        },
        RegionQuadTree::Branch(a, b, c, d) => {
            let (ra, rb, rc, rd) = (region_of(*a), region_of(*b), region_of(*c), region_of(*d));
            &&& tiles(*a)
            &&& tiles(*b)
            &&& tiles(*c)
            &&& tiles(*d)
            &&& rb.x == ra.x && rb.y == ra.y + ra.height && rb.width == ra.width
            &&& rc.x == ra.x + ra.width && rc.y == ra.y && rc.height == ra.height
            &&& rd.x == rc.x && rd.y == rb.y && rd.width == rc.width && rd.height == rb.height
        },
    }
}

/// The region lies inside a `w` by `h` image.
pub open spec fn region_inside(r: Region, w: nat, h: nat) -> bool {
    r.x + r.width <= w && r.y + r.height <= h
}

/// The pixels of a region, column by column.
pub open spec fn region_points(img: Image, r: Region) -> Seq<Rgba> {
    Seq::new(
        (r.width * r.height) as nat,
        |k: int| img.pixel_at(r.x + k / (r.height as int), r.y + k % (r.height as int)),
    )
}

/// A leaf over `r` with the mean colour of its pixels.
pub open spec fn leaf_of(img: Image, r: Region) -> RegionQuadTree {
    RegionQuadTree::Leaf(r, mean_of(region_points(img, r)))
}

/// Error of a tree in ten-thousandths: for a leaf the weighted mean squared
/// error of its pixels against its colour; for a branch the sum over the
/// children.
pub open spec fn error_of(t: RegionQuadTree, img: Image) -> int
    decreases t,
{
    match t {
        RegionQuadTree::Leaf(r, c) => mse_of(c, region_points(img, r)),
        RegionQuadTree::Branch(a, b, c, d) => error_of(*a, img) + error_of(*b, img) + error_of(
            *c,
            img,
        ) + error_of(*d, img),
    }
}

/// The four quarters of a region; the right and bottom ones take the odd
/// column and row.
pub open spec fn quarters(r: Region) -> (Region, Region, Region, Region) {
    let wl = r.width / 2;
    let wr = (r.width - wl) as usize;
    let hu = r.height / 2;
    let hd = (r.height - hu) as usize;
    (
        Region { x: r.x, y: r.y, width: wl, height: hu },
        Region { x: r.x, y: (r.y + hu) as usize, width: wl, height: hd },
        Region { x: (r.x + wl) as usize, y: r.y, width: wr, height: hu },
        Region { x: (r.x + wl) as usize, y: (r.y + hu) as usize, width: wr, height: hd },
    )
}

pub open spec fn branch(
    a: RegionQuadTree,
    b: RegionQuadTree,
    c: RegionQuadTree,
    d: RegionQuadTree,
) -> RegionQuadTree {
    RegionQuadTree::Branch(Box::new(a), Box::new(b), Box::new(c), Box::new(d))
}

pub open spec fn or_else(o: Option<RegionQuadTree>, t: RegionQuadTree) -> RegionQuadTree {
    match o {
        Some(n) => n,
        None => t,
    }
}

/// One refinement step. Nothing changes where the error is below
/// `threshold` or the region is no wider or no taller than `min_len`.
/// Otherwise a leaf splits into four leaves over its quarters, and a branch
/// refines each child, changing only if some child changed.
pub open spec fn subdivided(
    t: RegionQuadTree,
    img: Image,
    threshold: int,
    min_len: int,
) -> Option<RegionQuadTree>
    decreases t,
{
    let r = region_of(t);
    if error_of(t, img) < threshold || r.height <= min_len || r.width <= min_len {
        None
    } else {
        match t {
            RegionQuadTree::Leaf(r, _) => {
                let (q0, q1, q2, q3) = quarters(r);
                Some(branch(leaf_of(img, q0), leaf_of(img, q1), leaf_of(img, q2), leaf_of(img, q3)))
            },
            RegionQuadTree::Branch(a, b, c, d) => {
                let (sa, sb, sc, sd) = (
                    subdivided(*a, img, threshold, min_len),
                    subdivided(*b, img, threshold, min_len),
                    subdivided(*c, img, threshold, min_len),
                    subdivided(*d, img, threshold, min_len),
                );
                if sa is None && sb is None && sc is None && sd is None {
                    None
                } else {
                    Some(branch(or_else(sa, *a), or_else(sb, *b), or_else(sc, *c), or_else(sd, *d)))
                }
            },
        }
    }
}

/// Sum over the leaves of their pixel count less one; each split lowers it.
pub open spec fn potential(t: RegionQuadTree) -> int
    decreases t,
{
    match t {
        RegionQuadTree::Leaf(r, _) => r.width * r.height - 1,
        RegionQuadTree::Branch(a, b, c, d) => potential(*a) + potential(*b) + potential(*c)
            + potential(*d),
    }
}

/// `n` is `o` with some leaves replaced by finer trees over the same
/// regions: every branch of `o` is still a branch of `n`.
pub open spec fn refines(n: RegionQuadTree, o: RegionQuadTree) -> bool
    decreases o,
{
    match o {
        RegionQuadTree::Leaf(r, _) => tiles(n) && region_of(n) == r,
        RegionQuadTree::Branch(a, b, c, d) => match n {
            RegionQuadTree::Branch(a2, b2, c2, d2) => refines(*a2, *a) && refines(*b2, *b)
                && refines(*c2, *c) && refines(*d2, *d),
            RegionQuadTree::Leaf(_, _) => false,
        },
    }
}

/// Pixels of a `w`-wide image after painting every leaf of `t` in its
/// colour, children in order.
pub open spec fn paint_tree(t: RegionQuadTree, pix: Seq<Rgba>, w: nat) -> Seq<Rgba>
    decreases t,
{
    match t {
        RegionQuadTree::Leaf(r, c) => filled(
            pix,
            w,
            r.x as int,
            r.y as int,
            r.x + r.width - 1,
            r.y + r.height - 1,
            c,
        ),
        RegionQuadTree::Branch(a, b, c, d) => paint_tree(
            *d,
            paint_tree(*c, paint_tree(*b, paint_tree(*a, pix, w), w), w),
            w,
        ),
    }
}

pub proof fn lemma_region_fits(t: RegionQuadTree)
    requires
        tiles(t),
    ensures
        region_of(t).width >= 1,
        region_of(t).height >= 1,
        region_of(t).x + region_of(t).width <= usize::MAX,
        region_of(t).y + region_of(t).height <= usize::MAX,
        potential(t) >= 0,
    decreases t,
{
    match t {
        RegionQuadTree::Leaf(r, _) => {
            assert(r.width * r.height >= 1) by (nonlinear_arith)
                requires
                    r.width >= 1,
                    r.height >= 1,
            ;
        },
        RegionQuadTree::Branch(a, b, c, d) => {
            lemma_region_fits(*a);
            lemma_region_fits(*b);
            lemma_region_fits(*c);
            lemma_region_fits(*d);
        },
    }
}

pub proof fn lemma_error_bounds(t: RegionQuadTree, img: Image)
    ensures
        error_of(t, img) >= 0,
    decreases t,
{
    match t {
        RegionQuadTree::Leaf(r, c) => {
            lemma_mse_bound(c, region_points(img, r));
        },
        RegionQuadTree::Branch(a, b, c, d) => {
            lemma_error_bounds(*a, img);
            lemma_error_bounds(*b, img);
            lemma_error_bounds(*c, img);
            lemma_error_bounds(*d, img);
        },
    }
}

pub proof fn lemma_refines_refl(t: RegionQuadTree)
    requires
        tiles(t),
    ensures
        refines(t, t),
    decreases t,
{
    match t {
        RegionQuadTree::Leaf(_, _) => {},
        RegionQuadTree::Branch(a, b, c, d) => {
            lemma_refines_refl(*a);
            lemma_refines_refl(*b);
            lemma_refines_refl(*c);
            lemma_refines_refl(*d);
        },
    }
}

/// A refinement keeps the region and the tiling.
pub proof fn lemma_refines_region(n: RegionQuadTree, o: RegionQuadTree)
    requires
        tiles(o),
        refines(n, o),
    ensures
        tiles(n),
        region_of(n) == region_of(o),
    decreases o,
{
    match o {
        RegionQuadTree::Leaf(_, _) => {},
        RegionQuadTree::Branch(a, b, c, d) => {
            if let RegionQuadTree::Branch(a2, b2, c2, d2) = n {
                lemma_refines_region(*a2, *a);
                lemma_refines_region(*b2, *b);
                lemma_refines_region(*c2, *c);
                lemma_refines_region(*d2, *d);
            }
        },
    }
}

/// Refinement is transitive.
pub proof fn lemma_refines_trans(n: RegionQuadTree, m: RegionQuadTree, o: RegionQuadTree)
    requires
        tiles(o),
        refines(m, o),
        refines(n, m),
    ensures
        refines(n, o),
    decreases o,
{
    lemma_refines_region(m, o);
    lemma_refines_region(n, m);
    match o {
        RegionQuadTree::Leaf(_, _) => {},
        RegionQuadTree::Branch(a, b, c, d) => {
            if let RegionQuadTree::Branch(a1, b1, c1, d1) = m {
                if let RegionQuadTree::Branch(a2, b2, c2, d2) = n {
                    lemma_refines_trans(*a2, *a1, *a);
                    lemma_refines_trans(*b2, *b1, *b);
                    lemma_refines_trans(*c2, *c1, *c);
                    lemma_refines_trans(*d2, *d1, *d);
                }
            }
        },
    }
}

/// A refinement step keeps the tiling and the region, never coarsens a
/// branch, and lowers the potential.
pub proof fn lemma_subdivided_refines(t: RegionQuadTree, img: Image, threshold: int, min_len: int)
    requires
        tiles(t),
        min_len >= 1,
    ensures
        subdivided(t, img, threshold, min_len) matches Some(n) ==> {
            &&& tiles(n)
            &&& region_of(n) == region_of(t)
            &&& refines(n, t)
            &&& potential(n) < potential(t)
        },
    decreases t,
{
    lemma_region_fits(t);
    match subdivided(t, img, threshold, min_len) {
        None => {},
        Some(n) => {
            match t {
                RegionQuadTree::Leaf(r, _) => {
                    let (q0, q1, q2, q3) = quarters(r);
                    let wl = r.width / 2;
                    let wr = r.width - wl;
                    let hu = r.height / 2;
                    let hd = r.height - hu;
                    assert(wl * hu + wl * hd + wr * hu + wr * hd == r.width * r.height)
                        by (nonlinear_arith)
                        requires
                            wl + wr == r.width,
                            hu + hd == r.height,
                    ;
                    assert(region_of(leaf_of(img, q0)) == q0);
                    assert(region_of(leaf_of(img, q1)) == q1);
                    assert(region_of(leaf_of(img, q2)) == q2);
                    assert(region_of(leaf_of(img, q3)) == q3);
                    assert(r.width >= 2 && r.height >= 2);
                    assert(wl >= 1 && hu >= 1 && wr >= 1 && hd >= 1);
                    assert(tiles(leaf_of(img, q0)));
                    assert(tiles(leaf_of(img, q1)));
                    assert(tiles(leaf_of(img, q2)));
                    assert(tiles(leaf_of(img, q3)));
                    assert(n == branch(leaf_of(img, q0), leaf_of(img, q1), leaf_of(img, q2), leaf_of(img, q3)));
                    assert(potential(leaf_of(img, q0)) == wl * hu - 1);
                    assert(potential(leaf_of(img, q1)) == wl * hd - 1);
                    assert(potential(leaf_of(img, q2)) == wr * hu - 1);
                    assert(potential(leaf_of(img, q3)) == wr * hd - 1);
                    assert(potential(n) == (wl * hu - 1) + (wl * hd - 1) + (wr * hu - 1) + (wr * hd - 1));
                },
                RegionQuadTree::Branch(a, b, c, d) => {
                    lemma_subdivided_refines(*a, img, threshold, min_len);
                    lemma_subdivided_refines(*b, img, threshold, min_len);
                    lemma_subdivided_refines(*c, img, threshold, min_len);
                    lemma_subdivided_refines(*d, img, threshold, min_len);
                    lemma_refines_refl(*a);
                    lemma_refines_refl(*b);
                    lemma_refines_refl(*c);
                    lemma_refines_refl(*d);
                    let sa = subdivided(*a, img, threshold, min_len);
                    let sb = subdivided(*b, img, threshold, min_len);
                    let sc = subdivided(*c, img, threshold, min_len);
                    let sd = subdivided(*d, img, threshold, min_len);
                    assert(n == branch(or_else(sa, *a), or_else(sb, *b), or_else(sc, *c), or_else(sd, *d)));
                },
            }
        },
    }
}

/// A branch's children lie inside any image that the branch lies inside.
proof fn lemma_children_inside(t: RegionQuadTree, w: nat, h: nat)
    requires
        tiles(t),
        region_inside(region_of(t), w, h),
    ensures
        t matches RegionQuadTree::Branch(a, b, c, d) ==> {
            &&& region_inside(region_of(*a), w, h)
            &&& region_inside(region_of(*b), w, h)
            &&& region_inside(region_of(*c), w, h)
            &&& region_inside(region_of(*d), w, h)
        },
{
    if let RegionQuadTree::Branch(a, b, c, d) = t {
        lemma_region_fits(*a);
        lemma_region_fits(*b);
        lemma_region_fits(*c);
        lemma_region_fits(*d);
    }
}

proof fn lemma_image_dims(img: Image)
    requires
        img.wf(),
    ensures
        img.spec_width() <= usize::MAX,
        img.spec_height() <= usize::MAX,
{
    let (w, h) = (img.spec_width(), img.spec_height());
    assert(w <= w * h && h <= w * h) by (nonlinear_arith)
        requires
            w >= 1,
            h >= 1,
    ;
}

impl RegionQuadTree {
    /// A single leaf over the region, with a transparent black placeholder
    /// colour.
    pub fn new(x: usize, y: usize, width: usize, height: usize) -> (r: RegionQuadTree)
        ensures
            r == RegionQuadTree::Leaf(Region { x, y, width, height }, black()),
    {
        RegionQuadTree::Leaf(Region { x, y, width, height }, Rgba::new())
    }

    /// A single leaf over the region, with the mean colour of its pixels.
    pub fn leaf(x: usize, y: usize, width: usize, height: usize, image: &Image) -> (r:
        RegionQuadTree)
        requires
            image.wf(),
            width >= 1,
            height >= 1,
            region_inside(Region { x, y, width, height }, image.spec_width(), image.spec_height()),
        ensures
            r == leaf_of(*image, Region { x, y, width, height }),
    {
        proof {
            lemma_image_dims(*image);
        }
        let probe = Self::new(x, y, width, height);
        let pixels = probe.get_original_points(image);
        proof {
            assert(width * height >= 1) by (nonlinear_arith)
                requires
                    width >= 1,
                    height >= 1,
            ;
        }
        let mean = Rgba::mean(pixels.as_slice());
        RegionQuadTree::Leaf(Region { x, y, width, height }, mean)
    }

    /// The region this tree covers.
    pub fn region(&self) -> (r: Region)
        requires
            tiles(*self),
        ensures
            r == region_of(*self),
        decreases self,
    {
        proof {
            lemma_region_fits(*self);
        }
        match self {
            RegionQuadTree::Leaf(region, _) => *region,
            RegionQuadTree::Branch(a, b, c, _) => {
                let ra = a.region();
                let rb = b.region();
                let rc = c.region();
                proof {
                    lemma_region_fits(**b);
                    lemma_region_fits(**c);
                }
                Region {
                    x: ra.x,
                    y: ra.y,
                    width: ra.width + rc.width,
                    height: ra.height + rb.height,
                }
            },
        }
    }

    /// The pixels of the image in this tree's region, column by column.
    pub fn get_original_points(&self, image: &Image) -> (r: Vec<Rgba>)
        requires
            image.wf(),
            tiles(*self),
            region_inside(region_of(*self), image.spec_width(), image.spec_height()),
        ensures
            r@ == region_points(*image, region_of(*self)),
    {
        let region = self.region();
        let ghost pts = region_points(*image, region);
        let ghost h = region.height as int;
        proof {
            lemma_region_fits(*self);
        }
        let mut points: Vec<Rgba> = Vec::new();
        let mut x = region.x;
        while x < region.x + region.width
            invariant
                image.wf(),
                region == region_of(*self),
                region_inside(region, image.spec_width(), image.spec_height()),
                h == region.height,
                h >= 1,
                region.x + region.width <= usize::MAX,
                region.y + region.height <= usize::MAX,
                pts == region_points(*image, region),
                region.x <= x <= region.x + region.width,
                points@ =~= pts.take((x - region.x) * h),
            decreases region.x + region.width - x,
        {
            let mut y = region.y;
            while y < region.y + region.height
                invariant
                    image.wf(),
                    region == region_of(*self),
                    region_inside(region, image.spec_width(), image.spec_height()),
                    h == region.height,
                    h >= 1,
                    region.x + region.width <= usize::MAX,
                    region.y + region.height <= usize::MAX,
                    pts == region_points(*image, region),
                    region.x <= x < region.x + region.width,
                    region.y <= y <= region.y + region.height,
                    points@ =~= pts.take((x - region.x) * h + (y - region.y)),
                decreases region.y + region.height - y,
            {
                proof {
                    let k = (x - region.x) * h + (y - region.y);
                    vstd::arithmetic::div_mod::lemma_fundamental_div_mod_converse(
                        k,
                        h,
                        x - region.x,
                        y - region.y,
                    );
                    assert(k + 1 <= (x - region.x + 1) * h) by (nonlinear_arith)
                        requires
                            k == (x - region.x) * h + (y - region.y),
                            y - region.y < h,
                    ;
                    assert((x - region.x + 1) * h <= region.width * h) by (nonlinear_arith)
                        requires
                            x - region.x + 1 <= region.width,
                            h >= 1,
                    ;
                }
                points.push(image.get_pixel(x, y));
                y = y + 1;
            }
            proof {
                assert((x - region.x) * h + h == (x + 1 - region.x) * h) by (nonlinear_arith);
            }
            x = x + 1;
        }
        proof {
            assert(pts.take((region.width as int) * h) =~= pts);
        }
        points
    }

    /// Paints every leaf's region in its colour, children in order.
    pub fn get_averaged_points(&self, result: &mut Image)
        requires
            old(result).wf(),
            tiles(*self),
            region_inside(region_of(*self), old(result).spec_width(), old(result).spec_height()),
        ensures
            final(result).wf(),
            final(result).spec_width() == old(result).spec_width(),
            final(result).spec_height() == old(result).spec_height(),
            final(result).spec_pixels() == paint_tree(
                *self,
                old(result).spec_pixels(),
                old(result).spec_width(),
            ),
        decreases self,
    {
        proof {
            lemma_children_inside(*self, result.spec_width(), result.spec_height());
        }
        match self {
            RegionQuadTree::Leaf(region, mean) => {
                result.fill_rect(
                    region.x,
                    region.y,
                    region.x + region.width - 1,
                    region.y + region.height - 1,
                    *mean,
                );
            },
            RegionQuadTree::Branch(a, b, c, d) => {
                a.get_averaged_points(result);
                b.get_averaged_points(result);
                c.get_averaged_points(result);
                d.get_averaged_points(result);
            },
        }
    }

    /// The error of this tree against the image, saturated at `u64::MAX`.
    pub fn get_error(&self, image: &Image) -> (r: u64)
        requires
            image.wf(),
            tiles(*self),
            region_inside(region_of(*self), image.spec_width(), image.spec_height()),
        ensures
            r as int == if error_of(*self, *image) < u64::MAX {
                error_of(*self, *image)
            } else {
                u64::MAX as int
            },
        decreases self,
    {
        proof {
            lemma_children_inside(*self, image.spec_width(), image.spec_height());
            lemma_error_bounds(*self, *image);
        }
        match self {
            RegionQuadTree::Leaf(_, mean) => {
                let pixels = self.get_original_points(image);
                mean.mse(pixels.as_slice())
            },
            RegionQuadTree::Branch(a, b, c, d) => {
                proof {
                    lemma_error_bounds(**a, *image);
                    lemma_error_bounds(**b, *image);
                    lemma_error_bounds(**c, *image);
                    lemma_error_bounds(**d, *image);
                }
                let total = a.get_error(image) as u128 + b.get_error(image) as u128
                    + c.get_error(image) as u128 + d.get_error(image) as u128;
                if total < u64::MAX as u128 {
                    total as u64
                } else {
                    u64::MAX
                }
            },
        }
    }

    /// This tree, rebuilt node for node.
    pub fn copy(&self) -> (r: RegionQuadTree)
        ensures
            r == *self,
        decreases self,
    {
        match self {
            RegionQuadTree::Leaf(region, mean) => RegionQuadTree::Leaf(*region, *mean),
            RegionQuadTree::Branch(a, b, c, d) => RegionQuadTree::Branch(
                Box::new(a.copy()),
                Box::new(b.copy()),
                Box::new(c.copy()),
                Box::new(d.copy()),
            ),
        }
    }

    /// One refinement step (see `subdivided`); `None` where nothing changes.
    /// The error threshold is in ten-thousandths of a squared channel step.
    pub fn subdivide(&self, image: &Image, error_threshold: u64, min_region_length: usize) -> (r:
        Option<RegionQuadTree>)
        requires
            image.wf(),
            tiles(*self),
            region_inside(region_of(*self), image.spec_width(), image.spec_height()),
            min_region_length >= 1,
        ensures
            r == subdivided(*self, *image, error_threshold as int, min_region_length as int),
        decreases self,
    {
        proof {
            lemma_children_inside(*self, image.spec_width(), image.spec_height());
            lemma_region_fits(*self);
        }
        let region = self.region();
        if self.get_error(image) < error_threshold || region.height <= min_region_length
            || region.width <= min_region_length {
            return None;
        }
        match self {
            RegionQuadTree::Leaf(region, _) => {
                let half_width_l = region.width / 2;
                let half_width_r = region.width - half_width_l;
                let half_height_up = region.height / 2;
                let half_height_dwn = region.height - half_height_up;
                let a = RegionQuadTree::leaf(
                    region.x,
                    region.y,
                    half_width_l,
                    half_height_up,
                    image,
                );
                let b = RegionQuadTree::leaf(
                    region.x,
                    region.y + half_height_up,
                    half_width_l,
                    half_height_dwn,
                    image,
                );
                let c = RegionQuadTree::leaf(
                    region.x + half_width_l,
                    region.y,
                    half_width_r,
                    half_height_up,
                    image,
                );
                let d = RegionQuadTree::leaf(
                    region.x + half_width_l,
                    region.y + half_height_up,
                    half_width_r,
                    half_height_dwn,
                    image,
                );
                Some(RegionQuadTree::Branch(Box::new(a), Box::new(b), Box::new(c), Box::new(d)))
            },
            RegionQuadTree::Branch(a, b, c, d) => {
                let sa = a.subdivide(image, error_threshold, min_region_length);
                let sb = b.subdivide(image, error_threshold, min_region_length);
                let sc = c.subdivide(image, error_threshold, min_region_length);
                let sd = d.subdivide(image, error_threshold, min_region_length);
                if sa.is_none() && sb.is_none() && sc.is_none() && sd.is_none() {
                    return None;
                }
                let na = match sa {
                    Some(t) => t,
                    None => a.copy(),
                };
                let nb = match sb {
                    Some(t) => t,
                    None => b.copy(),
                };
                let nc = match sc {
                    Some(t) => t,
                    None => c.copy(),
                };
                let nd = match sd {
                    Some(t) => t,
                    None => d.copy(),
                };
                Some(RegionQuadTree::Branch(Box::new(na), Box::new(nb), Box::new(nc), Box::new(nd)))
            },
        }
    }
}

/// Refinement steps repeated until one changes nothing.
pub open spec fn refined(t: RegionQuadTree, img: Image, threshold: int, min_len: int) -> RegionQuadTree
    decreases potential(t),
    via refined_decreases
{
    if tiles(t) && min_len >= 1 {
        match subdivided(t, img, threshold, min_len) {
            Some(n) => refined(n, img, threshold, min_len),
            None => t,
        }
    } else {
        t
    }
}

#[via_fn]
proof fn refined_decreases(t: RegionQuadTree, img: Image, threshold: int, min_len: int) {
    lemma_step_lowers_potential(t, img, threshold, min_len);
}

proof fn lemma_step_lowers_potential(t: RegionQuadTree, img: Image, threshold: int, min_len: int)
    ensures
        tiles(t) && min_len >= 1 ==> (subdivided(t, img, threshold, min_len) matches Some(n) ==> 0
            <= potential(n) < potential(t)),
{
    if tiles(t) && min_len >= 1 {
        lemma_region_fits(t);
        lemma_subdivided_refines(t, img, threshold, min_len);
        if let Some(n) = subdivided(t, img, threshold, min_len) {
            lemma_region_fits(n);
        }
    }
}

/// Number of refinement steps that change the tree before one changes
/// nothing.
pub open spec fn refine_steps(t: RegionQuadTree, img: Image, threshold: int, min_len: int) -> nat
    decreases potential(t),
    via refine_steps_decreases
{
    if tiles(t) && min_len >= 1 {
        match subdivided(t, img, threshold, min_len) {
            Some(n) => 1 + refine_steps(n, img, threshold, min_len),
            None => 0,
        }
    } else {
        0
    }
}

#[via_fn]
proof fn refine_steps_decreases(t: RegionQuadTree, img: Image, threshold: int, min_len: int) {
    lemma_step_lowers_potential(t, img, threshold, min_len);
}

/// Refinement stops after at most as many changing steps as the potential
/// of the start: for a single leaf over a `w` by `h` region, `w * h - 1`.
pub proof fn lemma_refine_steps_bound(t: RegionQuadTree, img: Image, threshold: int, min_len: int)
    requires
        tiles(t),
        min_len >= 1,
    ensures
        refine_steps(t, img, threshold, min_len) <= potential(t),
        t matches RegionQuadTree::Leaf(r, _) ==> potential(t) == r.width * r.height - 1,
    decreases potential(t),
{
    lemma_region_fits(t);
    lemma_subdivided_refines(t, img, threshold, min_len);
    if let Some(n) = subdivided(t, img, threshold, min_len) {
        lemma_region_fits(n);
        lemma_refine_steps_bound(n, img, threshold, min_len);
    }
}

/// Number of times `b` must be halved, rounding up, to reach `min_len` or
/// less.
pub open spec fn halvings(b: int, min_len: int) -> nat
    decreases b,
{
    if b <= min_len || min_len < 1 {
        0
    } else {
        1 + halvings((b + 1) / 2, min_len)
    }
}

/// Every leaf that a later step could still split is at most `b` wide or at
/// most `b` tall; a subtree that one step leaves alone, every later step
/// leaves alone too.
pub open spec fn live_leaves_within(
    t: RegionQuadTree,
    b: int,
    img: Image,
    threshold: int,
    min_len: int,
) -> bool
    decreases t,
{
    subdivided(t, img, threshold, min_len) is None || match t {
        RegionQuadTree::Leaf(r, _) => r.width <= b || r.height <= b,
        RegionQuadTree::Branch(a, c1, c2, c3) => live_leaves_within(*a, b, img, threshold, min_len)
            && live_leaves_within(*c1, b, img, threshold, min_len) && live_leaves_within(
            *c2,
            b,
            img,
            threshold,
            min_len,
        ) && live_leaves_within(*c3, b, img, threshold, min_len),
    }
}

proof fn lemma_small_live_leaves_stable(t: RegionQuadTree, b: int, img: Image, threshold: int, min_len: int)
    requires
        live_leaves_within(t, b, img, threshold, min_len),
        b <= min_len,
    ensures
        subdivided(t, img, threshold, min_len) is None,
    decreases t,
{
    if let RegionQuadTree::Branch(a, c1, c2, c3) = t {
        if !(subdivided(t, img, threshold, min_len) is None) {
            lemma_small_live_leaves_stable(*a, b, img, threshold, min_len);
            lemma_small_live_leaves_stable(*c1, b, img, threshold, min_len);
            lemma_small_live_leaves_stable(*c2, b, img, threshold, min_len);
            lemma_small_live_leaves_stable(*c3, b, img, threshold, min_len);
        }
    }
}

proof fn lemma_step_halves_live_leaves(t: RegionQuadTree, b: int, img: Image, threshold: int, min_len: int)
    requires
        live_leaves_within(t, b, img, threshold, min_len),
        tiles(t),
        min_len >= 1,
    ensures
        subdivided(t, img, threshold, min_len) matches Some(n) ==> live_leaves_within(
            n,
            (b + 1) / 2,
            img,
            threshold,
            min_len,
        ),
    decreases t,
{
    let b2 = (b + 1) / 2;
    match subdivided(t, img, threshold, min_len) {
        None => {},
        Some(n) => {
            match t {
                RegionQuadTree::Leaf(r, _) => {
                    let (q0, q1, q2, q3) = quarters(r);
                    assert(n == branch(leaf_of(img, q0), leaf_of(img, q1), leaf_of(img, q2), leaf_of(img, q3)));
                    assert(live_leaves_within(leaf_of(img, q0), b2, img, threshold, min_len));
                    assert(live_leaves_within(leaf_of(img, q1), b2, img, threshold, min_len));
                    assert(live_leaves_within(leaf_of(img, q2), b2, img, threshold, min_len));
                    assert(live_leaves_within(leaf_of(img, q3), b2, img, threshold, min_len));
                },
                RegionQuadTree::Branch(a, c1, c2, c3) => {
                    lemma_step_halves_live_leaves(*a, b, img, threshold, min_len);
                    lemma_step_halves_live_leaves(*c1, b, img, threshold, min_len);
                    lemma_step_halves_live_leaves(*c2, b, img, threshold, min_len);
                    lemma_step_halves_live_leaves(*c3, b, img, threshold, min_len);
                    let sa = subdivided(*a, img, threshold, min_len);
                    let s1 = subdivided(*c1, img, threshold, min_len);
                    let s2 = subdivided(*c2, img, threshold, min_len);
                    let s3 = subdivided(*c3, img, threshold, min_len);
                    assert(n == branch(or_else(sa, *a), or_else(s1, *c1), or_else(s2, *c2), or_else(s3, *c3)));
                    assert(live_leaves_within(or_else(sa, *a), b2, img, threshold, min_len));
                    assert(live_leaves_within(or_else(s1, *c1), b2, img, threshold, min_len));
                    assert(live_leaves_within(or_else(s2, *c2), b2, img, threshold, min_len));
                    assert(live_leaves_within(or_else(s3, *c3), b2, img, threshold, min_len));
                },
            }
        },
    }
}

proof fn lemma_steps_within_halvings(t: RegionQuadTree, b: int, img: Image, threshold: int, min_len: int)
    requires
        live_leaves_within(t, b, img, threshold, min_len),
        tiles(t),
        min_len >= 1,
    ensures
        refine_steps(t, img, threshold, min_len) <= halvings(b, min_len),
    decreases potential(t),
{
    lemma_region_fits(t);
    lemma_subdivided_refines(t, img, threshold, min_len);
    if let Some(n) = subdivided(t, img, threshold, min_len) {
        if b <= min_len {
            lemma_small_live_leaves_stable(t, b, img, threshold, min_len);
        }
        lemma_region_fits(n);
        lemma_step_halves_live_leaves(t, b, img, threshold, min_len);
        lemma_steps_within_halvings(n, (b + 1) / 2, img, threshold, min_len);
    }
}

/// Refinement from a single leaf changes the tree in at most as many steps
/// as it takes to halve the leaf's shorter side, rounding up, down to
/// `min_len`: `log2(side / min_len)` steps where both are powers of two.
pub proof fn lemma_refine_steps_logarithmic(r: Region, img: Image, threshold: int, min_len: int)
    requires
        r.width >= 1,
        r.height >= 1,
        r.x + r.width <= usize::MAX,
        r.y + r.height <= usize::MAX,
        min_len >= 1,
    ensures
        refine_steps(leaf_of(img, r), img, threshold, min_len) <= halvings(
            if r.width <= r.height {
                r.width as int
            } else {
                r.height as int
            },
            min_len,
        ),
{
    let b = if r.width <= r.height {
        r.width as int
    } else {
        r.height as int
    };
    assert(live_leaves_within(leaf_of(img, r), b, img, threshold, min_len));
    lemma_steps_within_halvings(leaf_of(img, r), b, img, threshold, min_len);
}

/// The tree that refinement starts from: a leaf gets the mean colour of its
/// pixels in place of its placeholder.
pub open spec fn with_real_mean(t: RegionQuadTree, img: Image) -> RegionQuadTree {
    match t {
        RegionQuadTree::Leaf(r, _) => leaf_of(img, r),
        _ => t,
    }
}

/// The whole image as a region.
pub open spec fn full_region(img: Image) -> Region {
    Region { x: 0, y: 0, width: img.spec_width() as usize, height: img.spec_height() as usize }
}

/// Refinement is monotonic: the result refines the start, keeps its region,
/// and is stable, one more step changing nothing.
pub proof fn lemma_refinement_monotonic(
    t: RegionQuadTree,
    img: Image,
    threshold: int,
    min_len: int,
)
    requires
        tiles(t),
        min_len >= 1,
    ensures
        refines(refined(t, img, threshold, min_len), t),
        region_of(refined(t, img, threshold, min_len)) == region_of(t),
        subdivided(refined(t, img, threshold, min_len), img, threshold, min_len) is None,
    decreases potential(t),
{
    lemma_region_fits(t);
    lemma_subdivided_refines(t, img, threshold, min_len);
    match subdivided(t, img, threshold, min_len) {
        Some(n) => {
            lemma_region_fits(n);
            lemma_refinement_monotonic(n, img, threshold, min_len);
            lemma_refines_trans(refined(n, img, threshold, min_len), n, t);
        },
        None => {
            lemma_refines_refl(t);
        },
    }
}

/// With a threshold above any possible error nothing is split: the tree
/// stays one leaf with the mean colour of the whole image, and the image it
/// describes is that colour everywhere.
pub proof fn lemma_unbounded_threshold_keeps_one_leaf(img: Image, min_len: int)
    requires
        img.wf(),
        min_len >= 1,
    ensures
        ({
            let start = RegionQuadTree::Leaf(full_region(img), black());
            let end = refined(with_real_mean(start, img), img, u64::MAX as int, min_len);
            let c = mean_of(region_points(img, full_region(img)));
            &&& end == leaf_of(img, full_region(img))
            &&& paint_tree(end, blank(img.spec_width() * img.spec_height()), img.spec_width())
                == Seq::new(img.spec_width() * img.spec_height(), |p: int| c)
        }),
{
    let (w, h) = (img.spec_width() as int, img.spec_height() as int);
    lemma_image_dims(img);
    let r = full_region(img);
    let t = leaf_of(img, r);
    let c = mean_of(region_points(img, r));
    lemma_mse_bound(c, region_points(img, r));
    assert(error_of(t, img) < u64::MAX);
    assert(subdivided(t, img, u64::MAX as int, min_len) is None);
    let painted = paint_tree(t, blank((w * h) as nat), w as nat);
    assert forall|p: int| 0 <= p < w * h implies painted[p] == c by {
        lemma_row_major(p, w, h);
    }
    assert(painted =~= Seq::new((w * h) as nat, |p: int| c));
}

/// Every leaf is a square whose side is a power of two.
pub open spec fn square_pow2_leaves(t: RegionQuadTree) -> bool
    decreases t,
{
    match t {
        RegionQuadTree::Leaf(r, _) => r.width == r.height && exists|j: nat| pow2(j) == r.width,
        RegionQuadTree::Branch(a, b, c, d) => square_pow2_leaves(*a) && square_pow2_leaves(*b)
            && square_pow2_leaves(*c) && square_pow2_leaves(*d),
    }
}

/// Every leaf has the mean colour of its pixels.
pub open spec fn exact_leaves(t: RegionQuadTree, img: Image) -> bool
    decreases t,
{
    match t {
        RegionQuadTree::Leaf(r, c) => c == mean_of(region_points(img, r)),
        RegionQuadTree::Branch(a, b, c, d) => exact_leaves(*a, img) && exact_leaves(*b, img)
            && exact_leaves(*c, img) && exact_leaves(*d, img),
    }
}

/// Every leaf is a single pixel.
pub open spec fn unit_leaves(t: RegionQuadTree) -> bool
    decreases t,
{
    match t {
        RegionQuadTree::Leaf(r, _) => r.width == 1 && r.height == 1,
        RegionQuadTree::Branch(a, b, c, d) => unit_leaves(*a) && unit_leaves(*b) && unit_leaves(*c)
            && unit_leaves(*d),
    }
}

proof fn lemma_pow2_half(j: nat)
    requires
        pow2(j) >= 2,
    ensures
        j >= 1,
        pow2(j) / 2 == pow2((j - 1) as nat),
        pow2(j) - pow2(j) / 2 == pow2((j - 1) as nat),
{
    if j == 0 {
        assert(pow2(0) == 1);
    }
}

/// A refinement step keeps leaves square with power-of-two sides, and gives
/// every new leaf the mean colour of its pixels.
proof fn lemma_subdivided_keeps_leaves(t: RegionQuadTree, img: Image, threshold: int, min_len: int)
    requires
        tiles(t),
        min_len >= 1,
    ensures
        subdivided(t, img, threshold, min_len) matches Some(n) ==> {
            &&& (square_pow2_leaves(t) ==> square_pow2_leaves(n))
            &&& (exact_leaves(t, img) ==> exact_leaves(n, img))
        },
    decreases t,
{
    lemma_region_fits(t);
    match subdivided(t, img, threshold, min_len) {
        None => {},
        Some(n) => {
            match t {
                RegionQuadTree::Leaf(r, _) => {
                    let (q0, q1, q2, q3) = quarters(r);
                    assert(n == branch(leaf_of(img, q0), leaf_of(img, q1), leaf_of(img, q2), leaf_of(img, q3)));
                    if square_pow2_leaves(t) {
                        let j = choose|j: nat| pow2(j) == r.width;
                        lemma_pow2_half(j);
                        assert(square_pow2_leaves(leaf_of(img, q0)));
                        assert(square_pow2_leaves(leaf_of(img, q1)));
                        assert(square_pow2_leaves(leaf_of(img, q2)));
                        assert(square_pow2_leaves(leaf_of(img, q3)));
                    }
                    assert(exact_leaves(leaf_of(img, q0), img));
                    assert(exact_leaves(leaf_of(img, q1), img));
                    assert(exact_leaves(leaf_of(img, q2), img));
                    assert(exact_leaves(leaf_of(img, q3), img));
                },
                RegionQuadTree::Branch(a, b, c, d) => {
                    lemma_subdivided_keeps_leaves(*a, img, threshold, min_len);
                    lemma_subdivided_keeps_leaves(*b, img, threshold, min_len);
                    lemma_subdivided_keeps_leaves(*c, img, threshold, min_len);
                    lemma_subdivided_keeps_leaves(*d, img, threshold, min_len);
                },
            }
        },
    }
}

proof fn lemma_refined_keeps_leaves(t: RegionQuadTree, img: Image, threshold: int, min_len: int)
    requires
        tiles(t),
        min_len >= 1,
    ensures
        square_pow2_leaves(t) ==> square_pow2_leaves(refined(t, img, threshold, min_len)),
        exact_leaves(t, img) ==> exact_leaves(refined(t, img, threshold, min_len), img),
    decreases potential(t),
{
    lemma_region_fits(t);
    lemma_subdivided_refines(t, img, threshold, min_len);
    lemma_subdivided_keeps_leaves(t, img, threshold, min_len);
    if let Some(n) = subdivided(t, img, threshold, min_len) {
        lemma_region_fits(n);
        lemma_refined_keeps_leaves(n, img, threshold, min_len);
    }
}

/// With threshold 0 and minimum length 1, a stable tree of square
/// power-of-two leaves has only single-pixel leaves.
proof fn lemma_stable_unit_leaves(t: RegionQuadTree, img: Image)
    requires
        tiles(t),
        square_pow2_leaves(t),
        subdivided(t, img, 0, 1) is None,
    ensures
        unit_leaves(t),
    decreases t,
{
    lemma_region_fits(t);
    lemma_error_bounds(t, img);
    if let RegionQuadTree::Branch(a, b, c, d) = t {
        lemma_region_fits(*a);
        lemma_region_fits(*b);
        lemma_region_fits(*c);
        lemma_region_fits(*d);
        lemma_stable_unit_leaves(*a, img);
        lemma_stable_unit_leaves(*b, img);
        lemma_stable_unit_leaves(*c, img);
        lemma_stable_unit_leaves(*d, img);
    }
}

/// Painting a tree of exact single-pixel leaves copies the image inside the
/// tree's region and keeps `pix` outside it.
proof fn lemma_paint_unit_leaves(t: RegionQuadTree, img: Image, pix: Seq<Rgba>)
    requires
        img.wf(),
        tiles(t),
        unit_leaves(t),
        exact_leaves(t, img),
        region_inside(region_of(t), img.spec_width(), img.spec_height()),
        pix.len() == img.spec_width() * img.spec_height(),
    ensures
        ({
            let w = img.spec_width() as int;
            let r = region_of(t);
            let out = paint_tree(t, pix, w as nat);
            &&& out.len() == pix.len()
            &&& forall|p: int|
                0 <= p < pix.len() ==> #[trigger] out[p] == if crate::image::in_rect(
                    p % w,
                    p / w,
                    r.x as int,
                    r.y as int,
                    r.x + r.width - 1,
                    r.y + r.height - 1,
                ) {
                    img.spec_pixels()[p]
                } else {
                    pix[p]
                }
        }),
    decreases t,
{
    let w = img.spec_width() as int;
    let h = img.spec_height() as int;
    lemma_children_inside(t, w as nat, h as nat);
    match t {
        RegionQuadTree::Leaf(r, c) => {
            let pts = region_points(img, r);
            assert(pts.len() == 1);
            assert(pts.drop_last().len() == 0);
            let px = img.pixel_at(r.x as int, r.y as int);
            assert(pts[0] == px);
            crate::image::lemma_mean_single(pts);
            assert(c == px);
            let out = paint_tree(t, pix, w as nat);
            assert forall|p: int| 0 <= p < pix.len() implies #[trigger] out[p] == if crate::image::in_rect(
                p % w,
                p / w,
                r.x as int,
                r.y as int,
                r.x + r.width - 1,
                r.y + r.height - 1,
            ) {
                img.spec_pixels()[p]
            } else {
                pix[p]
            } by {
                lemma_row_major(p, w, h);
            }
        },
        RegionQuadTree::Branch(a, b, c, d) => {
            lemma_region_fits(*a);
            lemma_region_fits(*b);
            lemma_region_fits(*c);
            lemma_region_fits(*d);
            let p1 = paint_tree(*a, pix, w as nat);
            lemma_paint_unit_leaves(*a, img, pix);
            let p2 = paint_tree(*b, p1, w as nat);
            lemma_paint_unit_leaves(*b, img, p1);
            let p3 = paint_tree(*c, p2, w as nat);
            lemma_paint_unit_leaves(*c, img, p2);
            lemma_paint_unit_leaves(*d, img, p3);
        },
    }
}

/// With threshold 0 and minimum length 1, refining the tree of a square
/// image whose side is a power of two splits it down to single pixels, and
/// the image it describes is the image itself.
pub proof fn lemma_zero_threshold_reproduces_image(img: Image, k: nat)
    requires
        img.wf(),
        img.spec_width() == pow2(k),
        img.spec_height() == pow2(k),
    ensures
        ({
            let start = RegionQuadTree::Leaf(full_region(img), black());
            let end = refined(with_real_mean(start, img), img, 0, 1);
            &&& unit_leaves(end)
            &&& paint_tree(end, blank(img.spec_width() * img.spec_height()), img.spec_width())
                == img.spec_pixels()
        }),
{
    let (w, h) = (img.spec_width() as int, img.spec_height() as int);
    lemma_image_dims(img);
    let r = full_region(img);
    let t = leaf_of(img, r);
    assert(with_real_mean(RegionQuadTree::Leaf(r, black()), img) == t);
    assert(square_pow2_leaves(t));
    let end = refined(t, img, 0, 1);
    lemma_refinement_monotonic(t, img, 0, 1);
    lemma_refines_region(end, t);
    lemma_refined_keeps_leaves(t, img, 0, 1);
    lemma_stable_unit_leaves(end, img);
    let base = blank((w * h) as nat);
    lemma_paint_unit_leaves(end, img, base);
    let out = paint_tree(end, base, w as nat);
    assert forall|p: int| 0 <= p < w * h implies out[p] == img.spec_pixels()[p] by {
        lemma_row_major(p, w, h);
    }
    assert(out =~= img.spec_pixels());
}

/// An image and the adaptive quad tree that approximates it.
pub struct RegionQuadTreeImage {
    quadtree: RegionQuadTree,
    image: Image,
}

impl RegionQuadTreeImage {
    pub closed spec fn spec_tree(&self) -> RegionQuadTree {
        self.quadtree
    }

    pub closed spec fn spec_image(&self) -> Image {
        self.image
    }

    pub open spec fn wf(&self) -> bool {
        &&& self.spec_image().wf()
        &&& tiles(self.spec_tree())
        &&& region_of(self.spec_tree()) == full_region(self.spec_image())
    }

    /// One leaf over the whole image, with a placeholder colour.
    pub fn new(image: Image) -> (r: RegionQuadTreeImage)
        requires
            image.wf(),
        ensures
            r.wf(),
            r.spec_image() == image,
            r.spec_tree() == RegionQuadTree::Leaf(full_region(image), black()),
    {
        proof {
            lemma_image_dims(image);
        }
        let quadtree = RegionQuadTree::new(0, 0, image.width(), image.height());
        RegionQuadTreeImage { quadtree, image }
    }

    /// Gives a lone leaf its real mean colour, then refines until a step
    /// changes nothing. The error threshold is in ten-thousandths of a
    /// squared channel step; regions no wider or no taller than
    /// `min_region_length` are not split.
    pub fn subdivide_until(&mut self, error_threshold: u64, min_region_length: usize)
        requires
            old(self).wf(),
            min_region_length >= 1,
        ensures
            final(self).wf(),
            final(self).spec_image() == old(self).spec_image(),
            final(self).spec_tree() == refined(
                with_real_mean(old(self).spec_tree(), old(self).spec_image()),
                old(self).spec_image(),
                error_threshold as int,
                min_region_length as int,
            ),
            refines(final(self).spec_tree(), old(self).spec_tree()),
    {
        let ghost img = self.image;
        let ghost thr = error_threshold as int;
        let ghost min = min_region_length as int;
        let ghost start = with_real_mean(self.quadtree, img);
        proof {
            lemma_image_dims(img);
        }
        if let RegionQuadTree::Leaf(region, _) = &self.quadtree {
            let r = *region;
            self.quadtree = RegionQuadTree::leaf(r.x, r.y, r.width, r.height, &self.image);
        }
        proof {
            lemma_refines_refl(self.quadtree);
        }
        loop
            invariant
                self.wf(),
                self.image == img,
                min >= 1,
                thr == error_threshold,
                min == min_region_length,
                refined(self.quadtree, img, thr, min) == refined(start, img, thr, min),
                refines(self.quadtree, start),
                tiles(start),
                refines(start, old(self).spec_tree()),
                tiles(old(self).spec_tree()),
            ensures
                self.quadtree == refined(start, img, thr, min),
            decreases potential(self.quadtree),
        {
            proof {
                lemma_subdivided_refines(self.quadtree, img, thr, min);
                lemma_region_fits(self.quadtree);
            }
            match self.quadtree.subdivide(&self.image, error_threshold, min_region_length) {
                Some(qt) => {
                    proof {
                        lemma_refines_trans(qt, self.quadtree, start);
                        lemma_region_fits(qt);
                    }
                    self.quadtree = qt;
                },
                None => {
                    assert(refined(self.quadtree, img, thr, min) == self.quadtree);
                    break;
                },
            }
        }
        proof {
            lemma_refines_trans(self.quadtree, start, old(self).spec_tree());
            assert(self.quadtree == refined(start, img, thr, min));
            assert(start == with_real_mean(old(self).spec_tree(), old(self).spec_image()));
            assert(img == old(self).spec_image());
        }
    }

    /// The image the current tree describes: each leaf's region in its
    /// colour.
    pub fn get_result_image(&self) -> (r: Image)
        requires
            self.wf(),
        ensures
            r.wf(),
            r.spec_width() == self.spec_image().spec_width(),
            r.spec_height() == self.spec_image().spec_height(),
            r.spec_pixels() == paint_tree(
                self.spec_tree(),
                blank(self.spec_image().spec_width() * self.spec_image().spec_height()),
                self.spec_image().spec_width(),
            ),
    {
        let mut result = Image::empty(self.image.width(), self.image.height());
        self.quadtree.get_averaged_points(&mut result);
        result
    }

    /// The image being approximated.
    pub fn image(&self) -> (r: &Image)
        ensures
            *r == self.spec_image(),
    {
        &self.image
    }
}

} // verus!
