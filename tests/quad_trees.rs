use quadtree::complete_quad_tree::{Coordinate, QuadTree};
use quadtree::image::{Image, Rgba};
use quadtree::region_quad_tree::{Region, RegionQuadTree, RegionQuadTreeImage};

fn grey(v: u8) -> Rgba {
    Rgba {
        red: v,
        green: v,
        blue: v,
        alpha: v,
    }
}

fn test_image_4x4() -> Image {
    let mut pixels = vec![];
    for i in 1..1 + 16 {
        pixels.push(grey(i));
    }
    Image::new(4, 4, pixels)
}

fn colour_image_4x4() -> Image {
    let mut pixels = vec![];
    for i in 1..1 + 16 {
        pixels.push(Rgba {
            red: i * 5,
            green: i * 4,
            blue: i * 3,
            alpha: 255,
        });
    }
    Image::new(4, 4, pixels)
}

#[test]
fn tree_size() {
    assert_eq!(QuadTree::get_tree_size(1), (1, 1));
    assert_eq!(QuadTree::get_tree_size(4), (5, 4));
    assert_eq!(QuadTree::get_tree_size(9), (21, 16));
    assert_eq!(QuadTree::get_tree_size(16), (21, 16));
}

#[test]
fn tree_construction_4by4() {
    let image = test_image_4x4();
    let tree = QuadTree::new(&image);
    let nodes = tree.nodes();

    assert_eq!(nodes.len(), 21);

    for i in 0..21 {
        assert_ne!(nodes[i].data.red, 0);
        assert_ne!(nodes[i].data.green, 0);
        assert_ne!(nodes[i].data.blue, 0);
    }
    assert_eq!(nodes[0].top_left, Coordinate { x: 0, y: 0 });
    assert_eq!(nodes[0].bottom_right, Coordinate { x: 3, y: 3 });
    assert_eq!(nodes[1].top_left, Coordinate { x: 0, y: 0 });
    assert_eq!(nodes[1].bottom_right, Coordinate { x: 1, y: 1 });
    assert_eq!(nodes[4].top_left, Coordinate { x: 2, y: 2 });
    assert_eq!(nodes[4].bottom_right, Coordinate { x: 3, y: 3 });
}

#[test]
fn level_image() {
    let image = test_image_4x4();
    let tree = QuadTree::new(&image);

    let level_image = tree.image_at_level(0);
    assert_eq!(level_image.width(), 4);
    assert_eq!(level_image.height(), 4);
    for x in 0..4 {
        for y in 0..4 {
            assert_eq!(level_image.get_pixel(x, y), grey(8));
        }
    }

    let level_image = tree.image_at_level(1);
    for x in 0..2 {
        for y in 0..2 {
            assert_eq!(level_image.get_pixel(x, y), grey(3));
        }
        for y in 2..4 {
            assert_eq!(level_image.get_pixel(x, y), grey(11));
        }
    }
    for x in 2..4 {
        for y in 0..2 {
            assert_eq!(level_image.get_pixel(x, y), grey(5));
        }
        for y in 2..4 {
            assert_eq!(level_image.get_pixel(x, y), grey(13));
        }
    }
}

#[test]
fn roundtrip() {
    let image = test_image_4x4();
    let tree = QuadTree::new(&image);
    let image2 = tree.image_at_level(2);
    let tree2 = QuadTree::new(&image2);

    assert_eq!(tree.nodes().len(), tree2.nodes().len());
    for node in tree.nodes().iter().zip(tree2.nodes().iter()) {
        assert_eq!(node.0.data, node.1.data);
    }
}

#[test]
fn subdivide() {
    let mut tree = RegionQuadTreeImage::new(colour_image_4x4());
    tree.subdivide_until(10_000, 1);
    let result = tree.get_result_image();
    assert_eq!(tree.image().width(), result.width());
    assert_eq!(tree.image().height(), result.height());
}

#[test]
fn deepest_level_reproduces_image() {
    let image = colour_image_4x4();
    let tree = QuadTree::new(&image);
    assert_eq!(tree.depth(), 2);
    let deepest = tree.image_at_level(2);
    assert_eq!(deepest.pixels(), image.pixels());
}

#[test]
fn single_pixel_tree() {
    let image = Image::new(1, 1, vec![grey(42)]);
    let tree = QuadTree::new(&image);
    assert_eq!(tree.nodes().len(), 1);
    assert_eq!(tree.depth(), 0);
    assert_eq!(tree.image_at_level(0).get_pixel(0, 0), grey(42));
}

#[test]
fn eight_by_eight_tree_size_and_level_zero() {
    let mut pixels = vec![];
    for i in 0..64u8 {
        pixels.push(grey(i));
    }
    let image = Image::new(8, 8, pixels);
    let tree = QuadTree::new(&image);
    assert_eq!(tree.nodes().len(), 1 + 4 + 16 + 64);
    let flat = tree.image_at_level(0);
    let root = tree.nodes()[0].data;
    for p in flat.pixels() {
        assert_eq!(*p, root);
    }
    assert_eq!(tree.image_at_level(3).pixels(), image.pixels());
}

#[test]
fn level_zero_uses_nested_truncated_means() {
    // block sums 3, 3, 3 and 7 give block means 0, 0, 0 and 1, so the root
    // is 0 although the mean of all sixteen pixels is 1
    let rows: [[u8; 4]; 4] = [[1, 1, 1, 1], [1, 0, 1, 0], [1, 1, 1, 2], [1, 0, 2, 2]];
    let mut pixels = vec![];
    for row in rows.iter() {
        for v in row.iter() {
            pixels.push(grey(*v));
        }
    }
    let image = Image::new(4, 4, pixels);
    let tree = QuadTree::new(&image);
    let flat = tree.image_at_level(0);
    let first = flat.get_pixel(0, 0);
    for p in flat.pixels() {
        assert_eq!(*p, first);
    }
    assert_eq!(first, tree.nodes()[0].data);
    assert_eq!(Rgba::mean(image.pixels()), grey(1));
}

#[test]
fn mean_truncates() {
    assert_eq!(Rgba::mean(&[grey(1), grey(2)]), grey(1));
    assert_eq!(
        Rgba::mean(&[
            Rgba { red: 255, green: 0, blue: 10, alpha: 3 },
            Rgba { red: 254, green: 1, blue: 20, alpha: 4 },
            Rgba { red: 255, green: 1, blue: 31, alpha: 4 },
        ]),
        Rgba { red: 254, green: 0, blue: 20, alpha: 3 }
    );
}

#[test]
fn weighted_error_values() {
    let black = Rgba::new();
    assert_eq!(black.mse(&[Rgba { red: 10, green: 0, blue: 0, alpha: 99 }]), 298_900);
    assert_eq!(black.mse(&[Rgba { red: 0, green: 10, blue: 0, alpha: 0 }]), 587_000);
    assert_eq!(black.mse(&[Rgba { red: 0, green: 0, blue: 10, alpha: 0 }]), 114_000);
    // (2989 * 1 + 5870 * 4 + 1140 * 9) / 2 = 36729 / 2 = 18_364
    assert_eq!(
        black.mse(&[
            Rgba { red: 1, green: 2, blue: 3, alpha: 0 },
            Rgba { red: 0, green: 0, blue: 0, alpha: 0 },
        ]),
        18_364
    );
    assert_eq!(grey(7).mse(&[grey(7), grey(7)]), 0);
    assert_eq!(black.mse(&[]), 0);
    assert_eq!(black.mse(&[grey(255)]), 650_184_975);
}

#[test]
fn raw_bytes_round_trip() {
    let bytes: Vec<u8> = (0..24u8).map(|b| b.wrapping_mul(37)).collect();
    let image = Image::from_image_data(&bytes, 3, 2);
    assert_eq!(image.width(), 3);
    assert_eq!(image.height(), 2);
    assert_eq!(
        image.get_pixel(1, 0),
        Rgba { red: bytes[4], green: bytes[5], blue: bytes[6], alpha: bytes[7] }
    );
    assert_eq!(
        image.get_pixel(0, 1),
        Rgba { red: bytes[12], green: bytes[13], blue: bytes[14], alpha: bytes[15] }
    );
    let mut out = vec![0u8; 24];
    image.to_image_data(&mut out);
    assert_eq!(out, bytes);
}

#[test]
fn unbounded_threshold_keeps_one_mean_leaf() {
    let image = colour_image_4x4();
    let mean = Rgba::mean(image.pixels());
    let mut tree = RegionQuadTreeImage::new(image);
    tree.subdivide_until(u64::MAX, 1);
    let result = tree.get_result_image();
    for p in result.pixels() {
        assert_eq!(*p, mean);
    }
    assert_eq!(mean, Rgba { red: 42, green: 34, blue: 25, alpha: 255 });
}

#[test]
fn zero_threshold_reproduces_image() {
    let image = colour_image_4x4();
    let expected: Vec<Rgba> = image.pixels().to_vec();
    let mut tree = RegionQuadTreeImage::new(image);
    tree.subdivide_until(0, 1);
    assert_eq!(tree.get_result_image().pixels(), &expected[..]);
}

#[test]
fn min_region_length_stops_splitting() {
    let image = colour_image_4x4();
    let mut tree = RegionQuadTreeImage::new(image);
    tree.subdivide_until(0, 2);
    let result = tree.get_result_image();
    // one split into 2x2 quarters; the top-left holds pixels 1, 2, 5, 6
    let top_left = Rgba::mean(&[
        Rgba { red: 5, green: 4, blue: 3, alpha: 255 },
        Rgba { red: 10, green: 8, blue: 6, alpha: 255 },
        Rgba { red: 25, green: 20, blue: 15, alpha: 255 },
        Rgba { red: 30, green: 24, blue: 18, alpha: 255 },
    ]);
    assert_eq!(result.get_pixel(0, 0), top_left);
    assert_eq!(result.get_pixel(1, 1), top_left);
    assert_ne!(result.get_pixel(2, 0), top_left);
}

#[test]
fn subdivide_step_refines_leaf() {
    let image = colour_image_4x4();
    let tree = RegionQuadTree::leaf(0, 0, 4, 4, &image);
    assert!(tree.get_error(&image) > 0);
    let step = tree.subdivide(&image, 0, 1).unwrap();
    assert_eq!(step.region(), Region { x: 0, y: 0, width: 4, height: 4 });
    match &step {
        RegionQuadTree::Branch(a, b, c, d) => {
            assert_eq!(a.region(), Region { x: 0, y: 0, width: 2, height: 2 });
            assert_eq!(b.region(), Region { x: 0, y: 2, width: 2, height: 2 });
            assert_eq!(c.region(), Region { x: 2, y: 0, width: 2, height: 2 });
            assert_eq!(d.region(), Region { x: 2, y: 2, width: 2, height: 2 });
        }
        RegionQuadTree::Leaf(_, _) => panic!("a leaf above the threshold must split"),
    }
    let step2 = step.subdivide(&image, 0, 1).unwrap();
    assert_eq!(step2.region(), Region { x: 0, y: 0, width: 4, height: 4 });
    assert!(step2.subdivide(&image, 0, 1).is_none());
    // a threshold above the error leaves the tree unchanged
    assert!(tree.subdivide(&image, u64::MAX, 1).is_none());
}

#[test]
fn odd_sized_leaf_splits_floor_and_ceiling() {
    let mut pixels = vec![];
    for i in 0..15u8 {
        pixels.push(grey(i * 10));
    }
    let image = Image::new(5, 3, pixels);
    let tree = RegionQuadTree::leaf(0, 0, 5, 3, &image);
    let step = tree.subdivide(&image, 0, 1).unwrap();
    match &step {
        RegionQuadTree::Branch(a, b, c, d) => {
            assert_eq!(a.region(), Region { x: 0, y: 0, width: 2, height: 1 });
            assert_eq!(b.region(), Region { x: 0, y: 1, width: 2, height: 2 });
            assert_eq!(c.region(), Region { x: 2, y: 0, width: 3, height: 1 });
            assert_eq!(d.region(), Region { x: 2, y: 1, width: 3, height: 2 });
        }
        RegionQuadTree::Leaf(_, _) => panic!("expected a split"),
    }
}

fn count_changing_steps(image: &Image, threshold: u64, min_len: usize) -> usize {
    let mut tree = RegionQuadTree::leaf(0, 0, image.width(), image.height(), image);
    let mut steps = 0;
    while let Some(next) = tree.subdivide(image, threshold, min_len) {
        assert_eq!(next.region(), tree.region());
        tree = next;
        steps += 1;
    }
    steps
}

#[test]
fn refinement_steps_follow_halvings_of_the_side() {
    let mut pixels = vec![];
    for i in 0..64u8 {
        pixels.push(grey(i * 3));
    }
    let image = Image::new(8, 8, pixels);
    assert_eq!(count_changing_steps(&image, 0, 1), 3);
    assert_eq!(count_changing_steps(&image, 0, 2), 2);
    assert_eq!(count_changing_steps(&image, 0, 8), 0);

    let mut pixels = vec![];
    for i in 0..25u8 {
        pixels.push(grey(i * 7));
    }
    let odd = Image::new(5, 5, pixels);
    assert_eq!(count_changing_steps(&odd, 0, 1), 3);
}
