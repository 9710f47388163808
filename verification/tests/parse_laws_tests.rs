use img_tool::img_resize::{parse_align, parse_size, Align, HAlign, VAlign};

#[test]
fn sizes_read_back_from_their_text() {
    for (w, h) in [(0u32, 0u32), (1, 9), (10, 100), (256, 128), (u32::MAX, 7), (4096, u32::MAX)] {
        assert_eq!(parse_size(&format!("{}x{}", w, h)).unwrap(), (w, h));
    }
}

#[test]
fn align_words_in_either_order() {
    let words = ["center", "left", "right", "top", "bottom"];
    for x in words {
        for y in words {
            let a = parse_align(&format!("{}-{}", x, y));
            let b = parse_align(&format!("{}-{}", y, x));
            assert_eq!(a.is_ok(), b.is_ok());
            if let (Ok(a), Ok(b)) = (a, b) {
                assert_eq!(a, b);
            }
        }
    }
    assert_eq!(
        parse_align("bottom-right").unwrap(),
        Align::new(HAlign::Right, VAlign::Bottom)
    );
    assert_eq!(parse_align("right-bottom").unwrap(), parse_align("bottom-right").unwrap());
}

#[test]
fn missing_axis_is_centered() {
    for x in ["center", "left", "right", "top", "bottom"] {
        assert_eq!(parse_align(x).unwrap(), parse_align(&format!("{}-center", x)).unwrap());
    }
    assert_eq!(parse_align("left").unwrap(), Align::new(HAlign::Left, VAlign::Center));
}

#[test]
fn size_parts_are_trimmed_of_unicode_white_space() {
    assert_eq!(parse_size("\u{3000}12 x\t7\u{a0}").unwrap(), (12, 7));
    assert_eq!(parse_size("\u{2028}3x\u{85}4\u{205f}").unwrap(), (3, 4));
    // a zero-width space is not White_Space, so it stays in the number
    assert!(parse_size("\u{200b}12x7").is_err());
}

#[test]
fn align_parts_in_any_order_and_repeated() {
    assert_eq!(parse_align("left-top-center").unwrap(), parse_align("center-top-left").unwrap());
    assert_eq!(parse_align("top-top-left").unwrap(), Align::new(HAlign::Left, VAlign::Top));
    assert!(parse_align("left-x-right").is_err() && parse_align("right-left-x").is_err());
    assert!(parse_align("bottom-center-top").is_err());
}
