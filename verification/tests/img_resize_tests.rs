use img_tool::canvas::{Canvas, Rgba};
use img_tool::img_resize::{
    compute_layout, glob_match, parse_align, parse_size, parse_stretch, resize_dynamic_image, Align,
    HAlign, Layout, ScaleMode, VAlign,
};

const RED: Rgba = Rgba { r: 255, g: 0, b: 0, a: 255 };
const TRANSPARENT: Rgba = Rgba { r: 0, g: 0, b: 0, a: 0 };
const BLACK: Rgba = Rgba { r: 0, g: 0, b: 0, a: 255 };

/// Aspect-preserving fit of `iw x ih` inside `w x h`, computed in floating
/// point as the command-line tool does.
fn contain_size(iw: u32, ih: u32, w: u32, h: u32) -> (u32, u32) {
    let f = (w as f64 / iw as f64).min(h as f64 / ih as f64);
    let dw = ((iw as f64 * f).round() as u32).max(1);
    let dh = ((ih as f64 * f).round() as u32).max(1);
    (dw.min(w), dh.min(h))
}

fn layout(iw: u32, ih: u32, w: u32, h: u32, mode: ScaleMode, align: Align) -> Layout {
    compute_layout(iw, ih, w, h, mode, align, contain_size(iw, ih, w, h))
}

fn solid(w: u32, h: u32, color: Rgba) -> Canvas {
    Canvas::from_pixel(w, h, color)
}

fn px(img: &Canvas, x: u32, y: u32) -> Rgba {
    img.get_pixel(x, y)
}

fn resize(img: &Canvas, size: (u32, u32), mode: ScaleMode, align: Align, ext: &str) -> Canvas {
    let (iw, ih) = img.dimensions();
    resize_dynamic_image(img, size, mode, align, ext, contain_size(iw, ih, size.0, size.1))
}

// ---------- parsing ----------

#[test]
fn test_parse_stretch() {
    assert_eq!(parse_stretch("scale").unwrap(), ScaleMode::Scale);
    assert_eq!(parse_stretch("keep").unwrap(), ScaleMode::Keep);
    assert_eq!(parse_stretch("keep-aspect").unwrap(), ScaleMode::KeepAspect);
    assert_eq!(parse_stretch("KEEP").unwrap(), ScaleMode::Keep);
    assert!(parse_stretch("stretch").is_err());
    assert!(parse_stretch("").is_err());
    // as_str round-trips
    for m in [ScaleMode::Scale, ScaleMode::Keep, ScaleMode::KeepAspect] {
        assert_eq!(parse_stretch(m.as_str()).unwrap(), m);
    }
}

#[test]
fn test_parse_align() {
    // center alone centers both axes
    assert_eq!(parse_align("center").unwrap(), Align::center());
    assert_eq!(parse_align("CENTER").unwrap(), Align::center());
    // single part -> the other axis defaults to center
    assert_eq!(parse_align("top").unwrap(), Align::new(HAlign::Center, VAlign::Top));
    assert_eq!(parse_align("left").unwrap(), Align::new(HAlign::Left, VAlign::Center));
    assert_eq!(parse_align("right").unwrap(), Align::new(HAlign::Right, VAlign::Center));
    assert_eq!(parse_align("bottom").unwrap(), Align::new(HAlign::Center, VAlign::Bottom));
    // both parts, hyphen split: order is irrelevant
    assert_eq!(parse_align("top-left").unwrap(), Align::new(HAlign::Left, VAlign::Top));
    assert_eq!(parse_align("left-top").unwrap(), Align::new(HAlign::Left, VAlign::Top));
    assert_eq!(parse_align("top-right").unwrap(), Align::new(HAlign::Right, VAlign::Top));
    assert_eq!(parse_align("right-top").unwrap(), Align::new(HAlign::Right, VAlign::Top));
    assert_eq!(parse_align("bottom-left").unwrap(), Align::new(HAlign::Left, VAlign::Bottom));
    assert_eq!(parse_align("left-bottom").unwrap(), Align::new(HAlign::Left, VAlign::Bottom));
    assert_eq!(parse_align("bottom-right").unwrap(), Align::new(HAlign::Right, VAlign::Bottom));
    assert_eq!(parse_align("right-bottom").unwrap(), Align::new(HAlign::Right, VAlign::Bottom));
    // "center" fills whichever axis is still missing, in any position
    assert_eq!(parse_align("top-center").unwrap(), Align::new(HAlign::Center, VAlign::Top));
    assert_eq!(parse_align("center-top").unwrap(), Align::new(HAlign::Center, VAlign::Top));
    assert_eq!(parse_align("left-center").unwrap(), Align::new(HAlign::Left, VAlign::Center));
    assert_eq!(parse_align("center-left").unwrap(), Align::new(HAlign::Left, VAlign::Center));
    // whitespace / case tolerance
    assert_eq!(parse_align(" TOP-LEFT ").unwrap(), Align::new(HAlign::Left, VAlign::Top));
    // errors
    assert!(parse_align("topleft").is_err());
    assert!(parse_align("tl").is_err());
    assert!(parse_align("top-bottom").is_err());
    assert!(parse_align("left-right").is_err());
    assert!(parse_align("top-").is_err());
    assert!(parse_align("").is_err());
}

// ---------- layout ----------

#[test]
fn test_layout_scale_fills_canvas() {
    let lay = layout(100, 50, 200, 200, ScaleMode::Scale, Align::center());
    assert_eq!(lay, Layout { dw: 200, dh: 200, ox: 0, oy: 0 });
}

#[test]
fn test_layout_keep_aspect_contain() {
    // 100x50 -> 200x200 contain scale 2x => 200x100, centered vertically.
    let lay = layout(100, 50, 200, 200, ScaleMode::KeepAspect, Align::center());
    assert_eq!(lay, Layout { dw: 200, dh: 100, ox: 0, oy: 50 });
}

#[test]
fn test_layout_keep_native_when_fits() {
    // Image fully fits the canvas -> keep original pixels, any align.
    let br = layout(100, 50, 200, 200, ScaleMode::Keep, Align::new(HAlign::Right, VAlign::Bottom));
    assert_eq!(br, Layout { dw: 100, dh: 50, ox: 100, oy: 150 });

    let center = layout(100, 50, 200, 200, ScaleMode::Keep, Align::center());
    assert_eq!(center, Layout { dw: 100, dh: 50, ox: 50, oy: 75 });

    let tl = layout(100, 50, 200, 200, ScaleMode::Keep, Align::new(HAlign::Left, VAlign::Top));
    assert_eq!(tl, Layout { dw: 100, dh: 50, ox: 0, oy: 0 });
}

#[test]
fn test_layout_keep_overflow_falls_back_to_keep_aspect() {
    // 300x50 wider than 200x200 -> treat as keep-aspect (shrink to fit).
    let lay = layout(300, 50, 200, 200, ScaleMode::Keep, Align::center());
    assert_eq!(lay, Layout { dw: 200, dh: 33, ox: 0, oy: 83 });
}

#[test]
fn test_layout_keep_edge_equal_axis() {
    // Width already equals canvas width -> native, only vertical padding.
    let lay = layout(200, 50, 200, 200, ScaleMode::Keep, Align::center());
    assert_eq!(lay, Layout { dw: 200, dh: 50, ox: 0, oy: 75 });
}

#[test]
fn test_layout_align_axis_mapping() {
    // Padding on both axes: top-left / top / right / bottom-left / bottom.
    assert_eq!(
        layout(100, 50, 200, 200, ScaleMode::Keep, Align::new(HAlign::Left, VAlign::Top)),
        Layout { dw: 100, dh: 50, ox: 0, oy: 0 }
    );
    assert_eq!(
        layout(100, 50, 200, 200, ScaleMode::Keep, Align::new(HAlign::Center, VAlign::Top)),
        Layout { dw: 100, dh: 50, ox: 50, oy: 0 }
    );
    assert_eq!(
        layout(100, 50, 200, 200, ScaleMode::Keep, Align::new(HAlign::Right, VAlign::Center)),
        Layout { dw: 100, dh: 50, ox: 100, oy: 75 }
    );
    assert_eq!(
        layout(100, 50, 200, 200, ScaleMode::Keep, Align::new(HAlign::Left, VAlign::Bottom)),
        Layout { dw: 100, dh: 50, ox: 0, oy: 150 }
    );
    assert_eq!(
        layout(100, 50, 200, 200, ScaleMode::Keep, Align::new(HAlign::Center, VAlign::Bottom)),
        Layout { dw: 100, dh: 50, ox: 50, oy: 150 }
    );
}

// ---------- pixel-level compose checks ----------

#[test]
fn test_compose_keep_aspect_center_png_transparent_pad() {
    let img = solid(100, 50, RED);
    let out = resize(&img, (200, 200), ScaleMode::KeepAspect, Align::center(), "png");
    assert_eq!(out.dimensions(), (200, 200));
    // Content rows 50..=149 red; pad above/below transparent.
    assert_eq!(px(&out, 100, 50), RED);
    assert_eq!(px(&out, 0, 149), RED);
    assert_eq!(px(&out, 0, 0), TRANSPARENT);
    assert_eq!(px(&out, 199, 199), TRANSPARENT);
    assert_eq!(px(&out, 100, 49), TRANSPARENT);
    assert_eq!(px(&out, 100, 150), TRANSPARENT);
}

#[test]
fn test_compose_keep_aspect_bottom_jpg_black_pad() {
    let img = solid(100, 50, RED);
    let out = resize(&img, (200, 200), ScaleMode::KeepAspect, Align::new(HAlign::Center, VAlign::Bottom), "jpg");
    assert_eq!(out.dimensions(), (200, 200));
    // Content rows 100..=199; pad above black (opaque).
    assert_eq!(px(&out, 100, 150), RED);
    assert_eq!(px(&out, 0, 199), RED);
    assert_eq!(px(&out, 0, 0), BLACK);
    assert_eq!(px(&out, 100, 99), BLACK);
}

#[test]
fn test_compose_keep_native_bottom_right_png() {
    let img = solid(100, 50, RED);
    let out = resize(&img, (200, 200), ScaleMode::Keep, Align::new(HAlign::Right, VAlign::Bottom), "png");
    assert_eq!(out.dimensions(), (200, 200));
    assert_eq!(px(&out, 150, 175), RED);
    assert_eq!(px(&out, 199, 199), RED);
    assert_eq!(px(&out, 0, 0), TRANSPARENT);
    assert_eq!(px(&out, 99, 199), TRANSPARENT);
    assert_eq!(px(&out, 199, 149), TRANSPARENT);
}

#[test]
fn test_compose_keep_shrink_falls_back_to_contain() {
    let img = solid(300, 50, RED);
    let out = resize(&img, (200, 200), ScaleMode::Keep, Align::center(), "png");
    assert_eq!(out.dimensions(), (200, 200));
    // Contain-fit: 200x33 centered -> rows 83..=115.
    assert_eq!(px(&out, 100, 99), RED);
    assert_eq!(px(&out, 0, 116), TRANSPARENT);
    assert_eq!(px(&out, 0, 82), TRANSPARENT);
}

#[test]
fn test_compose_scale_fills_everything() {
    let img = solid(30, 40, RED);
    let out = resize(&img, (200, 200), ScaleMode::Scale, Align::new(HAlign::Left, VAlign::Top), "jpg");
    assert_eq!(out.dimensions(), (200, 200));
    assert_eq!(px(&out, 0, 0), RED);
    assert_eq!(px(&out, 199, 199), RED);
}

#[test]
fn test_parse_size() {
    assert_eq!(parse_size("256x256").unwrap(), (256, 256));
    assert_eq!(parse_size("128x64").unwrap(), (128, 64));
    assert_eq!(parse_size("512X384").unwrap(), (512, 384));
    assert!(parse_size("abc").is_err());
    assert!(parse_size("128x").is_err());
}

#[test]
fn test_glob_match() {
    assert!(glob_match("*.png", "image.png"));
    assert!(glob_match("*.png", "image.PNG"));
    assert!(!glob_match("*.png", "image.jpg"));
    assert!(glob_match("*.*", "image.png"));
    assert!(glob_match("*", "anything"));
}
