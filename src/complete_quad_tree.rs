use vstd::prelude::*;

use crate::image::{Image, Rgba, black, blank, filled, lemma_row_major, mean_of};

verus! {

/// A pixel position.
#[derive(Clone, Copy, Debug, PartialEq, Eq, Structural)]
pub struct Coordinate {
    pub x: usize,
    pub y: usize,
}

/// A node of the complete quad tree: the colour of the region from
/// `top_left` to `bottom_right`, both inclusive.
#[derive(Clone, Copy, Debug, PartialEq, Eq, Structural)]
pub struct QuadTreeNode {
    pub top_left: Coordinate,
    pub bottom_right: Coordinate,
    pub data: Rgba,
}

/// A complete quad tree stored heap-style: the children of node `i` are the
/// nodes `4i+1 ..= 4i+4`, and level `L` holds `4^L` nodes.
#[derive(Debug)]
pub struct QuadTree {
    nodes: Vec<QuadTreeNode>,
    width: usize,
    height: usize,
    depth: usize,
}

pub open spec fn pow4(k: nat) -> nat
    decreases k,
{
    if k == 0 {
        1
    } else {
        4 * pow4((k - 1) as nat)
    }
}

pub open spec fn pow2(k: nat) -> nat
    decreases k,
{
    if k == 0 {
        1
    } else {
        2 * pow2((k - 1) as nat)
    }
}

/// Index of the first node of level `level`: the number of nodes above it.
pub open spec fn level_start(level: nat) -> nat
    decreases level,
{
    if level == 0 {
        0
    } else {
        level_start((level - 1) as nat) + pow4((level - 1) as nat)
    }
}

/// Number of nodes of a complete quad tree of `depth + 1` levels.
pub open spec fn tree_total(depth: nat) -> nat {
    level_start(depth + 1)
}

/// Column of the pixel held by leaf slot `j` of a tree over a `side`-wide
/// image: 2x2 blocks in column-major block order, each block's pixels in the
/// order (0,0), (0,1), (1,0), (1,1).
pub open spec fn leaf_x(j: int, side: int) -> int {
    if side == 1 {
        0
    } else {
        2 * ((j / 4) / (side / 2)) + (j % 4) / 2
    }
}

/// Row of the pixel held by leaf slot `j`.
pub open spec fn leaf_y(j: int, side: int) -> int {
    if side == 1 {
        0
    } else {
        2 * ((j / 4) % (side / 2)) + j % 2
    }
}

pub open spec fn coord(x: int, y: int) -> Coordinate {
    Coordinate { x: x as usize, y: y as usize }
}

/// Node `i` of the tree of depth `k` built over `img`: a leaf holds one
/// pixel, a branch spans its first to its last child and has the mean of
/// their colours.
pub open spec fn node_of(img: Image, k: nat, i: int) -> QuadTreeNode
    decreases tree_total(k) - i,
    via node_of_decreases
{
    let first_leaf = level_start(k) as int;
    if i < first_leaf && i >= 0 {
        let c1 = node_of(img, k, 4 * i + 1);
        let c2 = node_of(img, k, 4 * i + 2);
        let c3 = node_of(img, k, 4 * i + 3);
        let c4 = node_of(img, k, 4 * i + 4);
        QuadTreeNode {
            top_left: c1.top_left,
            bottom_right: c4.bottom_right,
            data: mean_of(seq![c1.data, c2.data, c3.data, c4.data]),
        }
    } else {
        let j = i - first_leaf;
        let x = leaf_x(j, img.spec_width() as int);
        let y = leaf_y(j, img.spec_width() as int);
        QuadTreeNode { top_left: coord(x, y), bottom_right: coord(x, y), data: img.pixel_at(x, y) }
    }
}

#[via_fn]
proof fn node_of_decreases(img: Image, k: nat, i: int) {
    lemma_level_start(k);
}

/// All nodes of the tree of depth `k` built over `img`.
pub open spec fn tree_nodes(img: Image, k: nat) -> Seq<QuadTreeNode> {
    Seq::new(tree_total(k), |i: int| node_of(img, k, i))
}

/// An image that a complete quad tree of depth `k` can cover: square, with
/// side `2^k`.
pub open spec fn fits_depth(img: Image, k: nat) -> bool {
    &&& img.wf()
    &&& img.spec_width() == pow2(k)
    &&& img.spec_height() == pow2(k)
}

/// Pixels of a `w`-wide image after painting nodes `lo .. hi` in order onto
/// `base`.
pub open spec fn paint_nodes(
    nodes: Seq<QuadTreeNode>,
    lo: int,
    hi: int,
    w: nat,
    base: Seq<Rgba>,
) -> Seq<Rgba>
    decreases hi - lo,
{
    if hi <= lo {
        base
    } else {
        let nd = nodes[hi - 1];
        filled(
            paint_nodes(nodes, lo, hi - 1, w, base),
            w,
            nd.top_left.x as int,
            nd.top_left.y as int,
            nd.bottom_right.x as int,
            nd.bottom_right.y as int,
            nd.data,
        )
    }
}

/// Pixels of the image that level `level` of the tree describes.
pub open spec fn level_image(nodes: Seq<QuadTreeNode>, level: nat, w: nat, h: nat) -> Seq<Rgba> {
    paint_nodes(nodes, level_start(level) as int, (level_start(level) + pow4(level)) as int, w, blank(w * h))
}

pub proof fn lemma_pow4_pow2(k: nat)
    ensures
        pow4(k) == pow2(k) * pow2(k),
        pow2(k) >= 1,
        k > 0 ==> pow2(k) % 2 == 0,
    decreases k,
{
    if k > 0 {
        lemma_pow4_pow2((k - 1) as nat);
        let p = pow2((k - 1) as nat);
        assert(pow2(k) == 2 * p);
        assert(pow4(k) == 4 * pow4((k - 1) as nat));
        assert(pow2(k) * pow2(k) == 4 * (p * p)) by (nonlinear_arith)
            requires
                pow2(k) == 2 * p,
        ;
        assert(pow4(k) == 4 * (p * p));
    } else {
        assert(pow2(0) == 1);
        assert(pow4(0) == 1);
    }
}

pub proof fn lemma_pow4_monotonic(a: nat, b: nat)
    requires
        a <= b,
    ensures
        pow4(a) <= pow4(b),
        a < b ==> 4 * pow4(a) <= pow4(b),
    decreases b,
{
    if a < b {
        lemma_pow4_monotonic(a, (b - 1) as nat);
    }
}

proof fn lemma_level_start(k: nat)
    ensures
        3 * level_start(k) + 1 == pow4(k),
        4 * level_start(k) + 1 == level_start(k + 1),
    decreases k,
{
    if k > 0 {
        lemma_level_start((k - 1) as nat);
    }
}

pub proof fn lemma_pow2_monotonic(a: nat, b: nat)
    requires
        a < b,
    ensures
        pow2(a) < pow2(b),
    decreases b,
{
    lemma_pow4_pow2(a);
    if a + 1 < b {
        lemma_pow2_monotonic(a, (b - 1) as nat);
    }
}

proof fn lemma_leaf_in_bounds(j: int, side: int)
    requires
        side >= 1,
        side == 1 || side % 2 == 0,
        0 <= j < side * side,
    ensures
        0 <= leaf_x(j, side) < side,
        0 <= leaf_y(j, side) < side,
{
    if side > 1 {
        let half = side / 2;
        let b = j / 4;
        assert(side * side == 4 * (half * half)) by (nonlinear_arith)
            requires
                side == 2 * half,
        ;
        assert(0 <= b < half * half);
        assert(0 <= b / half < half) by (nonlinear_arith)
            requires
                0 <= b < half * half,
                half >= 1,
        ;
        assert(0 <= b % half < half) by (nonlinear_arith)
            requires
                half >= 1,
        ;
    }
}

/// Every node of the tree lies inside the image.
proof fn lemma_node_bounds(img: Image, k: nat, i: int)
    requires
        fits_depth(img, k),
        0 <= i < tree_total(k),
    ensures
        node_of(img, k, i).bottom_right.x < img.spec_width(),
        node_of(img, k, i).bottom_right.y < img.spec_height(),
    decreases tree_total(k) - i,
{
    lemma_level_start(k);
    let first_leaf = level_start(k) as int;
    if i < first_leaf {
        lemma_node_bounds(img, k, 4 * i + 4);
    } else {
        lemma_pow4_pow2(k);
        let s = img.spec_width() as int;
        lemma_leaf_in_bounds(i - first_leaf, s);
    }
}

/// A complete quad tree over a `2^k`-sided image has `4^0 + ... + 4^k`
/// nodes, the last `4^k` of which are one per pixel.
pub proof fn lemma_node_count(img: Image, k: nat)
    requires
        fits_depth(img, k),
    ensures
        tree_nodes(img, k).len() == level_start(k) + pow4(k),
        pow4(k) == img.spec_width() * img.spec_height(),
{
    lemma_pow4_pow2(k);
}

/// Row-major position of the pixel held by leaf slot `j`.
pub open spec fn leaf_pos(j: int, side: int) -> int {
    leaf_y(j, side) * side + leaf_x(j, side)
}

/// Every pixel is held by some leaf slot.
proof fn lemma_leaf_onto(x: int, y: int, side: int) -> (j: int)
    requires
        side >= 1,
        side == 1 || side % 2 == 0,
        0 <= x < side,
        0 <= y < side,
    ensures
        0 <= j < side * side,
        leaf_x(j, side) == x,
        leaf_y(j, side) == y,
{
    if side == 1 {
        0
    } else {
        let half = side / 2;
        let b = (x / 2) * half + y / 2;
        let q = 2 * (x % 2) + y % 2;
        let j = 4 * b + q;
        assert(0 <= y / 2 < half);
        assert(0 <= x / 2 < half);
        vstd::arithmetic::div_mod::lemma_fundamental_div_mod_converse(j, 4, b, q);
        vstd::arithmetic::div_mod::lemma_fundamental_div_mod_converse(j, 2, 2 * b + x % 2, y % 2);
        vstd::arithmetic::div_mod::lemma_fundamental_div_mod_converse(q, 2, x % 2, y % 2);
        vstd::arithmetic::div_mod::lemma_fundamental_div_mod_converse(b, half, x / 2, y / 2);
        assert(0 <= b < half * half) by (nonlinear_arith)
            requires
                b == (x / 2) * half + y / 2,
                0 <= y / 2 < half,
                0 <= x / 2 < half,
        ;
        assert(side * side == 4 * (half * half)) by (nonlinear_arith)
            requires
                side == 2 * half,
        ;
        j
    }
}

/// Painting the first `m` leaves sets each of their pixels to that of the image.
proof fn lemma_paint_leaves(img: Image, k: nat, m: int)
    requires
        fits_depth(img, k),
        0 <= m <= pow4(k),
    ensures
        ({
            let s = img.spec_width() as int;
            let first = level_start(k) as int;
            let painted = paint_nodes(tree_nodes(img, k), first, first + m, s as nat, blank((s * s) as nat));
            &&& painted.len() == s * s
            &&& forall|j: int| 0 <= j < m ==> painted[#[trigger] leaf_pos(j, s)] == img.spec_pixels()[leaf_pos(j, s)]
        }),
    decreases m,
{
    let s = img.spec_width() as int;
    let first = level_start(k) as int;
    lemma_pow4_pow2(k);
    lemma_level_start(k);
    if m > 0 {
        lemma_paint_leaves(img, k, m - 1);
        let prev = paint_nodes(tree_nodes(img, k), first, first + m - 1, s as nat, blank((s * s) as nat));
        let painted = paint_nodes(tree_nodes(img, k), first, first + m, s as nat, blank((s * s) as nat));
        let x = leaf_x(m - 1, s);
        let y = leaf_y(m - 1, s);
        lemma_leaf_in_bounds(m - 1, s);
        assert(tree_nodes(img, k)[first + m - 1] == node_of(img, k, first + m - 1));
        assert(s * s <= usize::MAX);
        assert(s <= s * s) by (nonlinear_arith)
            requires
                s >= 1,
        ;
        let nd = node_of(img, k, first + m - 1);
        assert(nd.top_left.x as int == x && nd.top_left.y as int == y);
        assert(nd.bottom_right.x as int == x && nd.bottom_right.y as int == y);
        assert(painted == filled(prev, s as nat, x, y, x, y, img.pixel_at(x, y)));
        assert forall|j: int| 0 <= j < m implies painted[#[trigger] leaf_pos(j, s)] == img.spec_pixels()[leaf_pos(j, s)] by {
            let p = leaf_pos(j, s);
            lemma_leaf_in_bounds(j, s);
            let (xj, yj) = (leaf_x(j, s), leaf_y(j, s));
            lemma_index_parts(xj, yj, s);
            if xj == x && yj == y {
                assert(painted[p] == img.pixel_at(x, y));
            } else {
                assert(painted[p] == prev[p]);
            }
        }
    }
}

proof fn lemma_index_parts(x: int, y: int, s: int)
    requires
        0 <= x < s,
        0 <= y < s,
    ensures
        0 <= y * s + x < s * s,
        (y * s + x) % s == x,
        (y * s + x) / s == y,
{
    vstd::arithmetic::div_mod::lemma_fundamental_div_mod_converse(y * s + x, s, y, x);
    assert(0 <= y * s + x < s * s) by (nonlinear_arith)
        requires
            0 <= x < s,
            0 <= y < s,
    ;
}

/// The image of the deepest level is the image itself, pixel for pixel.
pub proof fn lemma_deepest_level_is_image(img: Image, k: nat)
    requires
        fits_depth(img, k),
    ensures
        level_image(tree_nodes(img, k), k, img.spec_width(), img.spec_height()) == img.spec_pixels(),
{
    let s = img.spec_width() as int;
    lemma_pow4_pow2(k);
    lemma_paint_leaves(img, k, pow4(k) as int);
    let painted = level_image(tree_nodes(img, k), k, img.spec_width(), img.spec_height());
    assert forall|p: int| 0 <= p < s * s implies painted[p] == img.spec_pixels()[p] by {
        lemma_row_major(p, s, s);
        let j = lemma_leaf_onto(p % s, p / s, s);
        assert(leaf_pos(j, s) == p);
    }
    assert(painted =~= img.spec_pixels());
}

/// The first node of each level starts at the origin; the last node of
/// each level ends at the far corner.
proof fn lemma_level_corners(img: Image, k: nat, level: nat)
    requires
        fits_depth(img, k),
        level <= k,
    ensures
        node_of(img, k, level_start(level) as int).top_left == coord(0, 0),
        node_of(img, k, level_start(level + 1) - 1).bottom_right == coord(
            img.spec_width() - 1,
            img.spec_width() - 1,
        ),
    decreases k - level,
{
    let s = img.spec_width() as int;
    lemma_pow4_pow2(k);
    lemma_level_start(k);
    lemma_level_start(level);
    lemma_level_start(level + 1);
    if level < k {
        lemma_level_corners(img, k, level + 1);
        lemma_pow4_monotonic(level + 1, k);
    } else if s > 1 {
        let half = s / 2;
        let j = s * s - 1;
        assert(s * s == 4 * (half * half)) by (nonlinear_arith)
            requires
                s == 2 * half,
        ;
        vstd::arithmetic::div_mod::lemma_fundamental_div_mod_converse(j, 4, half * half - 1, 3);
        vstd::arithmetic::div_mod::lemma_fundamental_div_mod_converse(j, 2, 2 * (half * half - 1) + 1, 1);
        assert(half * half - 1 == (half - 1) * half + half - 1) by (nonlinear_arith);
        vstd::arithmetic::div_mod::lemma_fundamental_div_mod_converse(half * half - 1, half, half - 1, half - 1);
    }
}

/// The level-0 image is one flat colour, the root's, which is the mean of
/// the four level-1 colours.
pub proof fn lemma_level_zero_is_flat(img: Image, k: nat)
    requires
        fits_depth(img, k),
    ensures
        ({
            let nodes = tree_nodes(img, k);
            let s = img.spec_width();
            &&& level_image(nodes, 0, s, s) == Seq::new(s * s, |p: int| nodes[0].data)
            &&& k >= 1 ==> nodes[0].data == mean_of(
                seq![nodes[1].data, nodes[2].data, nodes[3].data, nodes[4].data],
            )
        }),
{
    let s = img.spec_width() as int;
    let nodes = tree_nodes(img, k);
    lemma_pow4_pow2(k);
    lemma_level_start(k);
    lemma_level_start(1);
    lemma_level_corners(img, k, 0);
    lemma_pow4_monotonic(0, k);
    let painted = level_image(nodes, 0, s as nat, s as nat);
    assert(s * s <= usize::MAX);
    assert(s <= s * s) by (nonlinear_arith)
        requires
            s >= 1,
    ;
    assert(level_start(0) == 0);
    assert(pow4(0) == 1);
    let root = node_of(img, k, 0);
    assert(nodes[0] == root);
    assert(root.bottom_right.x as int == s - 1 && root.bottom_right.y as int == s - 1);
    assert(root.top_left.x as int == 0 && root.top_left.y as int == 0);
    let base = blank((s * s) as nat);
    assert(paint_nodes(nodes, 0, 0, s as nat, base) == base);
    assert(painted == paint_nodes(nodes, 0, 1, s as nat, base));
    assert(painted == filled(blank((s * s) as nat), s as nat, 0, 0, s - 1, s - 1, root.data));
    assert forall|p: int| 0 <= p < s * s implies painted[p] == nodes[0].data by {
        lemma_row_major(p, s, s);
    }
    assert(painted =~= Seq::new((s * s) as nat, |p: int| nodes[0].data));
    if k >= 1 {
        lemma_pow4_monotonic(1, k);
        lemma_level_start(2);
        assert(level_start(k) >= 1) by {
            if k > 1 {
                lemma_pow4_monotonic(1, (k - 1) as nat);
                lemma_level_start((k - 1) as nat);
            }
        }
    }
}

/// Two images with the same size and pixels give the same tree.
proof fn lemma_same_pixels_same_nodes(a: Image, b: Image, k: nat, i: int)
    requires
        a.spec_width() == b.spec_width(),
        a.spec_pixels() == b.spec_pixels(),
    ensures
        node_of(a, k, i) == node_of(b, k, i),
    decreases tree_total(k) - i,
{
    lemma_level_start(k);
    if 0 <= i < level_start(k) {
        lemma_same_pixels_same_nodes(a, b, k, 4 * i + 1);
        lemma_same_pixels_same_nodes(a, b, k, 4 * i + 2);
        lemma_same_pixels_same_nodes(a, b, k, 4 * i + 3);
        lemma_same_pixels_same_nodes(a, b, k, 4 * i + 4);
    }
}

/// Summarising the image of the deepest level again gives back the very
/// same tree.
pub proof fn lemma_resummarize(img: Image, again: Image, k: nat)
    requires
        fits_depth(img, k),
        again.spec_width() == img.spec_width(),
        again.spec_height() == img.spec_height(),
        again.spec_pixels() == level_image(tree_nodes(img, k), k, img.spec_width(), img.spec_height()),
    ensures
        tree_nodes(again, k) == tree_nodes(img, k),
{
    lemma_deepest_level_is_image(img, k);
    assert forall|i: int| 0 <= i < tree_total(k) implies #[trigger] tree_nodes(again, k)[i] == tree_nodes(img, k)[i] by {
        lemma_same_pixels_same_nodes(again, img, k, i);
    }
    assert(tree_nodes(again, k) =~= tree_nodes(img, k));
}

impl QuadTreeNode {
    /// A placeholder node at the origin, transparent black.
    fn empty() -> (r: QuadTreeNode)
        ensures
            r.data == black(),
    {
        QuadTreeNode {
            top_left: Coordinate { x: 0, y: 0 },
            bottom_right: Coordinate { x: 0, y: 0 },
            data: Rgba::new(),
        }
    }

    /// The node of the single pixel `(x, y)`.
    fn pixel(image: &Image, x: usize, y: usize) -> (r: QuadTreeNode)
        requires
            image.wf(),
            x < image.spec_width(),
            y < image.spec_height(),
        ensures
            r == (QuadTreeNode {
                top_left: coord(x as int, y as int),
                bottom_right: coord(x as int, y as int),
                data: image.pixel_at(x as int, y as int),
            }),
    {
        QuadTreeNode {
            top_left: Coordinate { x, y },
            bottom_right: Coordinate { x, y },
            data: image.get_pixel(x, y),
        }
    }
}

impl QuadTree {
    pub closed spec fn spec_nodes(&self) -> Seq<QuadTreeNode> {
        self.nodes@
    }

    pub closed spec fn spec_width(&self) -> nat {
        self.width as nat
    }

    pub closed spec fn spec_height(&self) -> nat {
        self.height as nat
    }

    /// Index of the deepest level; the root is level 0.
    pub closed spec fn spec_depth(&self) -> nat {
        self.depth as nat
    }

    pub open spec fn wf(&self) -> bool {
        &&& self.spec_width() == pow2(self.spec_depth())
        &&& self.spec_height() == pow2(self.spec_depth())
        &&& self.spec_width() * self.spec_height() <= usize::MAX
        &&& self.spec_nodes().len() == tree_total(self.spec_depth())
        &&& forall|i: int|
            0 <= i < self.spec_nodes().len() ==> {
                &&& (#[trigger] self.spec_nodes()[i]).bottom_right.x < self.spec_width()
                &&& self.spec_nodes()[i].bottom_right.y < self.spec_height()
            }
    }

    /// Builds the complete quad tree of a square image whose side is a power
    /// of two. Leaf `j` (node `level_start(depth) + j`) holds the pixel
    /// `(leaf_x(j), leaf_y(j))`; every other node spans its first to its last
    /// child and holds the mean of their colours.
    pub fn new(image: &Image) -> (r: QuadTree)
        requires
            exists|k: nat| fits_depth(*image, k),
            image.spec_width() * image.spec_height() <= usize::MAX / 8,
        ensures
            r.wf(),
            fits_depth(*image, r.spec_depth()),
            r.spec_width() == image.spec_width(),
            r.spec_height() == image.spec_height(),
            r.spec_nodes() == tree_nodes(*image, r.spec_depth()),
    {
        let ghost k = choose|k: nat| fits_depth(*image, k);
        let image_size = image.get_size();
        let side = image.width();
        let (tree_size, last_level_size) = QuadTree::get_tree_size(image_size);
        proof {
            lemma_pow4_pow2(k);
            lemma_level_start(k);
            let k2 = choose|k2: nat|
                {
                    &&& last_level_size == pow4(k2)
                    &&& tree_size == tree_total(k2)
                    &&& image_size <= pow4(k2)
                    &&& (k2 == 0 || pow4((k2 - 1) as nat) < image_size)
                };
            if k2 < k {
                lemma_pow4_monotonic(k2, k);
            } else if k2 > k {
                lemma_pow4_monotonic(k, (k2 - 1) as nat);
            }
            assert(k2 == k);
        }
        // the depth is the number of halvings from the side down to one pixel
        let mut depth: usize = 0;
        let mut reach: usize = 1;
        while reach < side
            invariant
                side == pow2(k),
                reach == pow2(depth as nat),
                depth < reach,
                depth <= k,
                side <= usize::MAX,
            decreases side - reach,
        {
            proof {
                if depth == k {
                    assert(false);
                }
                lemma_pow2_monotonic(depth as nat, k);
                lemma_pow2_monotonic(depth as nat, (depth + 1) as nat);
                if depth + 1 < k {
                    lemma_pow2_monotonic((depth + 1) as nat, k);
                }
            }
            reach = reach * 2;
            depth = depth + 1;
        }
        proof {
            if depth < k {
                lemma_pow2_monotonic(depth as nat, k);
            }
            assert(depth == k);
        }
        let mut nodes = vec![QuadTreeNode::empty(); tree_size];
        let first_leaf = tree_size - last_level_size;
        assert(first_leaf == level_start(k));
        // one pixel per leaf, in 2x2 blocks so that siblings are adjacent
        let mut j: usize = 0;
        while j < last_level_size
            invariant
                fits_depth(*image, k),
                side == image.spec_width(),
                side == pow2(k),
                last_level_size == side * side,
                first_leaf == level_start(k),
                tree_size == first_leaf + last_level_size,
                nodes@.len() == tree_size,
                j <= last_level_size,
                forall|t: int|
                    first_leaf <= t < first_leaf + j ==> #[trigger] nodes@[t] == node_of(
                        *image,
                        k,
                        t,
                    ),
            decreases last_level_size - j,
        {
            proof {
                lemma_pow4_pow2(k);
                lemma_leaf_in_bounds(j as int, side as int);
            }
            let (x, y) = if side == 1 {
                (0usize, 0usize)
            } else {
                let half = side / 2;
                let b = j / 4;
                (2 * (b / half) + (j % 4) / 2, 2 * (b % half) + j % 2)
            };
            assert(x == leaf_x(j as int, side as int) && y == leaf_y(j as int, side as int));
            nodes.set(first_leaf + j, QuadTreeNode::pixel(image, x, y));
            j = j + 1;
        }
        // the branches back to front, so that their children are already in place
        let mut i: usize = first_leaf;
        while i > 0
            invariant
                fits_depth(*image, k),
                first_leaf == level_start(k),
                4 * first_leaf + 1 == tree_size,
                tree_size == tree_total(k),
                nodes@.len() == tree_size,
                i <= first_leaf,
                forall|t: int| i <= t < tree_size ==> #[trigger] nodes@[t] == node_of(*image, k, t),
            decreases i,
        {
            i = i - 1;
            let c1 = nodes[4 * i + 1];
            let c2 = nodes[4 * i + 2];
            let c3 = nodes[4 * i + 3];
            let c4 = nodes[4 * i + 4];
            let chunk = vec![c1.data, c2.data, c3.data, c4.data];
            assert(chunk@ =~= seq![c1.data, c2.data, c3.data, c4.data]);
            let mean = Rgba::mean(chunk.as_slice());
            nodes.set(
                i,
                QuadTreeNode { top_left: c1.top_left, bottom_right: c4.bottom_right, data: mean },
            );
        }
        proof {
            assert(nodes@ =~= tree_nodes(*image, k));
            assert forall|t: int| 0 <= t < nodes@.len() implies {
                &&& (#[trigger] nodes@[t]).bottom_right.x < side
                &&& nodes@[t].bottom_right.y < side
            } by {
                lemma_node_bounds(*image, k, t);
            }
        }
        QuadTree { nodes, width: side, height: image.height(), depth }
    }

    /// The image that level `level` describes: each node of that level,
    /// in order, paints its region in its colour over a transparent black
    /// image of the tree's size.
    pub fn image_at_level(&self, level: u32) -> (r: Image)
        requires
            self.wf(),
            level <= self.spec_depth(),
        ensures
            r.wf(),
            r.spec_width() == self.spec_width(),
            r.spec_height() == self.spec_height(),
            r.spec_pixels() == level_image(
                self.spec_nodes(),
                level as nat,
                self.spec_width(),
                self.spec_height(),
            ),
    {
        proof {
            lemma_pow4_pow2(self.depth as nat);
        }
        let mut image = Image::empty(self.width, self.height);
        let ghost base = image.spec_pixels();
        let total = self.nodes.len();
        let mut index: usize = 0;
        let mut level_size: usize = 1;
        let mut l: u32 = 0;
        while l < level
            invariant
                self.wf(),
                total == self.nodes@.len(),
                total == tree_total(self.depth as nat),
                level <= self.depth,
                l <= level,
                index == level_start(l as nat),
                level_size == pow4(l as nat),
            decreases level - l,
        {
            proof {
                let d = self.depth as nat;
                lemma_level_start(l as nat);
                lemma_level_start((l + 1) as nat);
                lemma_level_start(d);
                lemma_level_start(d + 1);
                lemma_pow4_monotonic((l + 1) as nat, d);
                assert(index + level_size == level_start((l + 1) as nat));
                assert(level_start((l + 1) as nat) <= total);
                assert(4 * level_size == pow4((l + 1) as nat));
                assert(pow4(d) <= total);
            }
            index = index + level_size;
            level_size = level_size * 4;
            l = l + 1;
        }
        proof {
            let d = self.depth as nat;
            lemma_level_start(level as nat);
            lemma_level_start((level + 1) as nat);
            lemma_level_start(d + 1);
            lemma_pow4_monotonic((level + 1) as nat, d + 1);
            assert(index + level_size == level_start((level + 1) as nat));
        }
        let end = index + level_size;
        let mut i = index;
        while i < end
            invariant
                self.wf(),
                end <= self.nodes@.len(),
                index <= i <= end,
                image.wf(),
                image.spec_width() == self.spec_width(),
                image.spec_height() == self.spec_height(),
                image.spec_pixels() == paint_nodes(self.nodes@, index as int, i as int, self.spec_width(), base),
            decreases end - i,
        {
            let node = self.nodes[i];
            image.fill_rect(
                node.top_left.x,
                node.top_left.y,
                node.bottom_right.x,
                node.bottom_right.y,
                node.data,
            );
            i = i + 1;
        }
        image
    }

    /// The nodes, heap-ordered.
    pub fn nodes(&self) -> (r: &[QuadTreeNode])
        ensures
            r@ == self.spec_nodes(),
    {
        self.nodes.as_slice()
    }

    /// Index of the deepest level, whose image is the tree's image itself.
    pub fn depth(&self) -> (r: usize)
        ensures
            r == self.spec_depth(),
    {
        self.depth
    }

    /// Number of nodes, and number of leaves, of the smallest complete quad
    /// tree with at least `image_size` leaves.
    pub fn get_tree_size(image_size: usize) -> (r: (usize, usize))
        requires
            image_size <= usize::MAX / 8,
        ensures
            exists|k: nat|
                {
                    &&& r.1 == pow4(k)
                    &&& r.0 == tree_total(k)
                    &&& image_size <= pow4(k)
                    &&& (k == 0 || pow4((k - 1) as nat) < image_size)
                },
    {
        let mut level_size: usize = 1;
        let mut total_size: usize = 1;
        let ghost mut k: nat = 0;
        proof {
            lemma_level_start(1);
        }
        while level_size < image_size
            invariant
                image_size <= usize::MAX / 8,
                level_size == pow4(k),
                level_size >= 1,
                total_size == tree_total(k),
                3 * total_size + 1 == 4 * level_size,
                k == 0 || pow4((k - 1) as nat) < image_size,
            decreases usize::MAX - level_size,
        {
            level_size = level_size * 4;
            total_size = total_size + level_size;
            proof {
                k = k + 1;
                lemma_level_start(k);
                lemma_level_start(k + 1);
            }
        }
        (total_size, level_size)
    }
}

} // verus!
