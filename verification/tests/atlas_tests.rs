use img_tool::canvas::{Canvas, Rgba};
use img_tool::img_atlas::{
    atlas_output_is_jpeg, ceil_sqrt, compute_atlas_dims, compute_grid, round_to_512_square,
    run_atlas, stitch_at_positions, AtlasConfig, AtlasError, ImageItem,
};
use img_tool::img_resize::{Align, ScaleMode};
use img_tool::options::Compression;
use img_tool::packing::{order_by_height_desc, tight_layout};

fn item(name: &str, w: u32, h: u32, shade: u8) -> ImageItem {
    ImageItem { name: name.to_string(), image: Canvas::from_pixel(w, h, Rgba::new(shade, 0, 0, 255)) }
}

fn config(do_resize: bool) -> AtlasConfig {
    AtlasConfig {
        input: ".".to_string(),
        output: "atlas.png".to_string(),
        filter: "*.png".to_string(),
        do_resize,
        resize_size: (4, 4),
        resize_aspect: ScaleMode::Keep,
        resize_align: Align::center(),
        spacing: (0, 0),
        frames: None,
        atlas_size: None,
        compression: Compression::Best,
    }
}

#[test]
fn grid_shapes() {
    assert_eq!(ceil_sqrt(0), 0);
    assert_eq!(ceil_sqrt(1), 1);
    assert_eq!(ceil_sqrt(5), 3);
    assert_eq!(ceil_sqrt(9), 3);
    assert_eq!(ceil_sqrt(u32::MAX), 65536);
    for n in 0..2000u32 {
        assert_eq!(ceil_sqrt(n), (n as f64).sqrt().ceil() as u32);
    }
    assert_eq!(compute_grid(10, None), (4, 4));
    assert_eq!(compute_grid(10, Some((4, 1))), (4, 3));
    assert_eq!(compute_grid(10, Some((4, 8))), (4, 8));
}

#[test]
fn atlas_sizes_round_to_512() {
    assert_eq!(round_to_512_square(0), (0, 0));
    assert_eq!(round_to_512_square(1), (512, 512));
    assert_eq!(round_to_512_square(512), (512, 512));
    assert_eq!(round_to_512_square(513), (1024, 1024));
    // 10 + 3 * 266 = 808 wide, 10 + 2 * 266 = 542 high
    assert_eq!(compute_atlas_dims(3, 2, 266, 266, (10, 10), None), (1024, 1024));
    assert_eq!(compute_atlas_dims(3, 2, 266, 266, (10, 10), Some((100, 50))), (100, 50));
    assert!(atlas_output_is_jpeg(Some("jpg")));
    assert!(!atlas_output_is_jpeg(Some("JPG")));
    assert!(!atlas_output_is_jpeg(None));
}

#[test]
fn tallest_first_is_stable() {
    assert_eq!(order_by_height_desc(&vec![5, 9, 5, 7, 9]), vec![1, 4, 3, 0, 2]);
}

#[test]
fn tight_rows() {
    // rows of two: (10x4, 6x2) then (8x3)
    let lay = tight_layout(&vec![(10, 4), (6, 2), (8, 3)], 2, None).unwrap();
    assert_eq!(lay.rows, 2);
    assert_eq!(lay.positions, vec![(0, 0), (10, 1), (0, 4)]);
    assert_eq!((lay.content_w, lay.content_h), (16, 7));
    assert_eq!((lay.atlas_w, lay.atlas_h), (512, 512));
    assert!(tight_layout(&vec![(u32::MAX, 1), (1, 1)], 2, None).is_none());
    assert!(tight_layout(&vec![(u32::MAX - 100, 1)], 1, None).is_none());
    assert!(tight_layout(&vec![(u32::MAX - 600, 1)], 1, None).is_some());
    assert!(tight_layout(&vec![(u32::MAX - 600, 1)], 1, Some((8, 8))).is_some());
}

#[test]
fn tight_atlas_end_to_end() {
    let items = vec![item("a", 2, 1, 10), item("b", 3, 3, 20), item("c", 1, 2, 30)];
    let mut cfg = config(false);
    cfg.atlas_size = Some((8, 8));
    let a = run_atlas(&items, &cfg).unwrap();
    // tallest first: b (3), c (2), a (1); two columns
    assert_eq!(a.order, vec![1, 2, 0]);
    assert_eq!(a.cols, 2);
    assert_eq!(a.rows, 2);
    assert_eq!(a.positions, vec![(0, 0), (3, 0), (0, 3)]);
    assert_eq!(a.content, (4, 4));
    assert_eq!(a.image.dimensions(), (8, 8));
    assert_eq!(a.image.get_pixel(2, 2).r, 20);
    assert_eq!(a.image.get_pixel(3, 1).r, 30);
    assert_eq!(a.image.get_pixel(1, 3).r, 10);
    assert_eq!(a.image.get_pixel(7, 7), Rgba::new(0, 0, 0, 0));
    assert!(a.skipped.is_empty());
}

#[test]
fn grid_atlas_end_to_end() {
    let items = vec![item("a", 4, 4, 10), item("b", 4, 4, 20), item("c", 4, 4, 30)];
    let mut cfg = config(true);
    cfg.spacing = (1, 1);
    cfg.atlas_size = Some((9, 20));
    let a = run_atlas(&items, &cfg).unwrap();
    assert_eq!((a.cols, a.rows), (2, 2));
    assert_eq!(a.positions, vec![(1, 1), (6, 1), (1, 6)]);
    assert_eq!(a.image.dimensions(), (9, 20));
    assert_eq!(a.image.get_pixel(1, 1).r, 10);
    assert_eq!(a.image.get_pixel(8, 4).r, 20);
    assert_eq!(a.image.get_pixel(0, 0).a, 0);
    assert_eq!(a.image.get_pixel(5, 1).a, 0);
    assert_eq!(a.image.get_pixel(2, 9).r, 30);
    // a corner outside the atlas is skipped
    cfg.atlas_size = Some((6, 20));
    let b = run_atlas(&items, &cfg).unwrap();
    assert_eq!(b.skipped, vec![1]);
    // auto size
    cfg.atlas_size = None;
    let c = run_atlas(&items, &cfg).unwrap();
    assert_eq!(c.image.dimensions(), (512, 512));
}

#[test]
fn atlas_errors() {
    let items = vec![item("a", 4, 4, 10)];
    let mut cfg = config(true);
    cfg.frames = Some((0, 1));
    assert!(matches!(run_atlas(&items, &cfg), Err(AtlasError::ZeroColumns)));
    let mut tight = config(false);
    tight.frames = Some((0, 1));
    assert!(matches!(run_atlas(&items, &tight), Err(AtlasError::ZeroColumns)));
    let mut big = config(true);
    big.resize_size = (u32::MAX, 4);
    big.spacing = (1, 0);
    assert!(matches!(run_atlas(&items, &big), Err(AtlasError::Overflow)));
}

#[test]
fn stitch_later_items_win() {
    let items = vec![item("a", 2, 2, 10), item("b", 2, 2, 20)];
    let (c, skipped) = stitch_at_positions(&items, &vec![0, 1], &vec![(0, 0), (1, 1)], 3, 3);
    assert!(skipped.is_empty());
    assert_eq!(c.get_pixel(0, 0).r, 10);
    assert_eq!(c.get_pixel(1, 1).r, 20);
    assert_eq!(c.get_pixel(2, 0).a, 0);
}
