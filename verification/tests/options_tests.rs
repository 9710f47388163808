use img_tool::img_resize::ParseError;
use img_tool::options::{ignored_resize_options, parse_compression, Compression};

#[test]
fn compression_values() {
    assert_eq!(parse_compression("best").unwrap(), Compression::Best);
    assert_eq!(parse_compression("DEFAULT").unwrap(), Compression::Default);
    assert_eq!(parse_compression("Fast").unwrap(), Compression::Fast);
    assert_eq!(parse_compression("6").unwrap(), Compression::Level(6));
    assert_eq!(parse_compression("0").unwrap(), Compression::Level(0));
    assert_eq!(parse_compression("9").unwrap(), Compression::Level(9));
    assert!(matches!(parse_compression("10"), Err(ParseError::UnknownCompression(s)) if s == "10"));
    assert!(matches!(parse_compression("256"), Err(ParseError::UnknownCompression(s)) if s == "256"));
    assert!(parse_compression("max").is_err());
}

#[test]
fn ignored_options_warnings() {
    assert!(ignored_resize_options(true, "1x1", "scale", "1x1").is_empty());
    assert!(ignored_resize_options(false, "256x256", "keep", "0x0").is_empty());
    assert_eq!(
        ignored_resize_options(false, "128x128", "scale", "4x4"),
        vec!["--size", "--aspect", "--spacing"]
    );
    assert_eq!(ignored_resize_options(false, "256x256", "keep", "1x0"), vec!["--spacing"]);
}
