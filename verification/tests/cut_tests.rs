use img_tool::canvas::{Canvas, Rgba};
use img_tool::img_cut::{cut_image, resolve_name_template, substitute, validate_filename, CutError};

#[test]
fn name_templates() {
    assert_eq!(resolve_name_template(Some("tile_$col-$row"), "pic"), "tile_$col-$row");
    assert_eq!(resolve_name_template(Some("plain"), "pic"), "pic-$index");
    assert_eq!(resolve_name_template(None, "pic"), "pic-$index");
    assert_eq!(substitute("tile_$col-$row", 1, 0, 7), "tile_1-0");
    assert_eq!(substitute("slice-$index", 0, 0, 12), "slice-12");
    assert_eq!(substitute("$row$col$index", 3, 4, 5), "435");
}

#[test]
fn file_name_checks() {
    assert!(validate_filename("tile_0-0").is_ok());
    assert!(matches!(validate_filename(""), Err(CutError::EmptyName)));
    assert!(matches!(validate_filename("a:b"), Err(CutError::IllegalChar(':', n)) if n == "a:b"));
    assert!(matches!(validate_filename("a\tb/c"), Err(CutError::ControlChar('\t', _))));
    assert!(matches!(validate_filename("x\u{7f}"), Err(CutError::ControlChar('\u{7f}', _))));
}

#[test]
fn cut_grid_absorbs_remainder() {
    let mut img = Canvas::from_pixel(5, 3, Rgba::new(0, 0, 0, 0));
    img.put_pixel(4, 2, Rgba::new(9, 9, 9, 9));
    let segs = cut_image(&img, (2, 2), Some("t_$col_$row_$index"), "stem", 1).unwrap();
    assert_eq!(segs.len(), 4);
    let names: Vec<&str> = segs.iter().map(|s| s.name.as_str()).collect();
    assert_eq!(names, vec!["t_0_0_1.png", "t_1_0_2.png", "t_0_1_3.png", "t_1_1_4.png"]);
    assert_eq!(segs[0].image.dimensions(), (2, 1));
    assert_eq!(segs[1].image.dimensions(), (3, 1));
    assert_eq!(segs[3].image.dimensions(), (3, 2));
    assert_eq!((segs[3].x, segs[3].y), (2, 1));
    assert_eq!(segs[3].image.get_pixel(2, 1), Rgba::new(9, 9, 9, 9));
}

#[test]
fn cut_refusals() {
    let img = Canvas::from_pixel(2, 2, Rgba::new(0, 0, 0, 0));
    assert!(matches!(cut_image(&img, (0, 1), None, "s", 0), Err(CutError::ZeroSegments)));
    assert!(matches!(cut_image(&img, (3, 1), None, "s", 0), Err(CutError::ImageTooSmall(2, 2, 3, 1))));
    assert!(matches!(cut_image(&img, (1, 1), Some("a/$index"), "s", 0), Err(CutError::IllegalChar('/', _))));
    let segs = cut_image(&img, (2, 1), None, "pic", 0).unwrap();
    assert_eq!(segs[1].name, "pic-1.png");
}
