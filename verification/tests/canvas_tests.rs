use img_tool::canvas::{Canvas, Rgba};
use img_tool::img_resize::{
    compose, extension_for_lower, fill_for_ext, merge_h, output_extension, parse_align, parse_size, parse_stretch,
    resize_image, Align, HAlign, ParseError, ScaleMode, VAlign,
};

const RED: Rgba = Rgba { r: 255, g: 0, b: 0, a: 255 };
const BLUE: Rgba = Rgba { r: 0, g: 0, b: 255, a: 255 };
const CLEAR: Rgba = Rgba { r: 0, g: 0, b: 0, a: 0 };

#[test]
fn from_pixel_fills_every_pixel() {
    let c = Canvas::from_pixel(3, 2, RED);
    assert_eq!(c.dimensions(), (3, 2));
    for y in 0..2 {
        for x in 0..3 {
            assert_eq!(c.get_pixel(x, y), RED);
        }
    }
    assert_eq!(c.into_raw(), [255, 0, 0, 255].repeat(6));
}

#[test]
fn paste_clips_to_the_canvas() {
    let mut c = Canvas::from_pixel(4, 4, CLEAR);
    let b = Canvas::from_pixel(3, 3, BLUE);
    c.paste(&b, 2, 2);
    assert_eq!(c.get_pixel(2, 2), BLUE);
    assert_eq!(c.get_pixel(3, 3), BLUE);
    assert_eq!(c.get_pixel(1, 3), CLEAR);
    assert_eq!(c.get_pixel(3, 1), CLEAR);
    // a corner outside the canvas copies nothing
    let mut d = Canvas::from_pixel(2, 2, CLEAR);
    d.paste(&b, 2, 0);
    assert_eq!(d.into_raw(), vec![0; 16]);
}

#[test]
fn crop_takes_the_area() {
    let mut c = Canvas::from_pixel(4, 3, CLEAR);
    c.put_pixel(2, 1, RED);
    let part = c.crop(1, 1, 2, 2);
    assert_eq!(part.dimensions(), (2, 2));
    assert_eq!(part.get_pixel(1, 0), RED);
    assert_eq!(part.get_pixel(0, 0), CLEAR);
    assert_eq!(part.get_pixel(1, 1), CLEAR);
}

#[test]
fn resampling_changes_the_size() {
    let c = Canvas::from_pixel(10, 10, RED);
    let r = c.resized_lanczos3(4, 6);
    assert_eq!(r.dimensions(), (4, 6));
    assert_eq!(r.get_pixel(2, 3), RED);
    // a gradient is smoothed, not copied
    let mut g = Canvas::from_pixel(4, 1, CLEAR);
    g.put_pixel(0, 0, Rgba::new(255, 255, 255, 255));
    let s = g.resized_lanczos3(8, 1);
    assert_eq!(s.dimensions(), (8, 1));
    assert_ne!(s.into_raw(), g.into_raw());
    // at its own size the canvas comes back unchanged
    let mut h = Canvas::from_pixel(3, 2, CLEAR);
    h.put_pixel(1, 1, BLUE);
    let same = h.resized_lanczos3(3, 2);
    assert_eq!(same.into_raw(), h.into_raw());
}

#[test]
fn fill_and_extension() {
    assert_eq!(fill_for_ext("jpg"), Rgba::new(0, 0, 0, 255));
    assert_eq!(fill_for_ext("jpeg"), Rgba::new(0, 0, 0, 255));
    assert_eq!(fill_for_ext("png"), CLEAR);
    assert_eq!(fill_for_ext("JPG"), CLEAR);
    assert_eq!(output_extension(Some("JPEG")), "jpg");
    assert_eq!(output_extension(Some("jpg")), "jpg");
    assert_eq!(output_extension(Some("gif")), "png");
    assert_eq!(output_extension(None), "png");
    assert_eq!(extension_for_lower(Some("jpeg")), "jpg");
    assert_eq!(extension_for_lower(Some("JPG")), "png");
    assert_eq!(extension_for_lower(None), "png");
}

#[test]
fn resize_image_names_and_fills() {
    let img = Canvas::from_pixel(10, 10, RED);
    let r = resize_image(&img, "photo", Some("JPG"), (20, 10), ScaleMode::Keep, Align::new(HAlign::Left, VAlign::Top), (10, 10));
    assert_eq!(r.file_name, "photo.jpg");
    assert_eq!(r.ext, "jpg");
    assert_eq!(r.image.dimensions(), (20, 10));
    assert_eq!(r.image.get_pixel(9, 9), RED);
    assert_eq!(r.image.get_pixel(10, 0), Rgba::new(0, 0, 0, 255));
    let p = resize_image(&img, "icon", Some("bmp"), (20, 10), ScaleMode::Keep, Align::center(), (10, 10));
    assert_eq!(p.file_name, "icon.png");
    assert_eq!(p.image.get_pixel(4, 0), CLEAR);
    assert_eq!(p.image.get_pixel(5, 0), RED);
    assert_eq!(p.image.get_pixel(15, 0), CLEAR);
}

#[test]
fn align_names_read_back() {
    for h in [HAlign::Left, HAlign::Center, HAlign::Right] {
        for v in [VAlign::Top, VAlign::Center, VAlign::Bottom] {
            let a = Align::new(h, v);
            assert_eq!(parse_align(&a.name()).unwrap(), a);
        }
    }
    assert_eq!(Align::new(HAlign::Left, VAlign::Top).name(), "top-left");
    assert_eq!(Align::center().name(), "center");
    assert_eq!(Align::new(HAlign::Right, VAlign::Center).name(), "right");
    assert_eq!(Align::new(HAlign::Left, VAlign::Top).offset(10, 20), (0, 0));
    assert_eq!(Align::center().offset(10, 21), (5, 10));
    assert_eq!(Align::new(HAlign::Right, VAlign::Bottom).offset(10, 20), (10, 20));
}

#[test]
fn parse_errors_name_their_input() {
    assert!(matches!(parse_stretch("big"), Err(ParseError::UnknownStretch(s)) if s == "big"));
    assert!(matches!(parse_align("top-x"), Err(ParseError::UnknownAlignPart(p, s)) if p == "x" && s == "top-x"));
    assert!(matches!(parse_align("left-right"), Err(ParseError::ConflictingHorizontal(s)) if s == "left-right"));
    assert!(matches!(parse_align("top-bottom"), Err(ParseError::ConflictingVertical(s)) if s == "top-bottom"));
    assert!(matches!(parse_size("1x2x3"), Err(ParseError::InvalidSizeFormat(s)) if s == "1x2x3"));
    assert!(matches!(parse_size(" 12 x q "), Err(ParseError::InvalidNumber(s)) if s == "q"));
    assert_eq!(parse_size(" 12 x 7 ").unwrap(), (12, 7));
    assert_eq!(parse_size("+5x6").unwrap(), (5, 6));
    let mut h = Some(HAlign::Center);
    assert!(merge_h(&mut h, HAlign::Left, "x").is_ok());
    assert_eq!(h, Some(HAlign::Left));
    assert!(merge_h(&mut h, HAlign::Left, "x").is_ok());
    assert!(merge_h(&mut h, HAlign::Right, "x").is_err());
    assert_eq!(h, Some(HAlign::Left));
}

#[test]
fn compose_draws_clipped_on_fill() {
    let src = Canvas::from_pixel(3, 2, RED);
    let out = compose(&src, 4, 4, 2, 1, BLUE);
    assert_eq!(out.dimensions(), (4, 4));
    assert_eq!(out.get_pixel(1, 1), BLUE);
    assert_eq!(out.get_pixel(2, 1), RED);
    assert_eq!(out.get_pixel(3, 2), RED);
    assert_eq!(out.get_pixel(3, 3), BLUE);
    assert_eq!(out.get_pixel(2, 0), BLUE);
    let off = compose(&src, 2, 2, 5, 0, CLEAR);
    assert_eq!(off.get_pixel(1, 1), CLEAR);
}
