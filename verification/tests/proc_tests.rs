use image_variants::image_data::ImageFormat;
use image_variants::image_proc::{
    build_lqip, data_uri, quality_range, to_record_lqip, width_format_pairs, ImageProcError,
};
use image_variants::text::{base_name_of, decimal_string, extension_of, json_escaped};

const QUALITY_MESSAGE: &str = "quality must be an integer value between 0 and 100";

#[test]
fn quality_range_accepts_valid_values() {
    assert!(quality_range("1").is_ok());
    assert!(quality_range("80").is_ok());
    assert!(quality_range("100").is_ok());
    assert!(quality_range("+5").is_ok());
    assert!(quality_range("050").is_ok());
}

#[test]
fn quality_range_rejects_invalid_values() {
    for bad in ["0", "101", "256", "999999999999", "abc", "", "+", " 5", "5 ", "-3", "8.5"] {
        match quality_range(bad) {
            Ok(_) => panic!("{:?} should have been rejected", bad),
            Err(m) => assert_eq!(m, QUALITY_MESSAGE),
        }
    }
}

#[test]
fn cross_product_spans_widths_and_formats() {
    let widths = vec![800u32, 1200u32];
    let formats = vec![ImageFormat::JPG, ImageFormat::WEBP];
    let pairs = width_format_pairs(&widths, &formats);
    assert_eq!(
        pairs,
        vec![
            (800, ImageFormat::JPG),
            (800, ImageFormat::WEBP),
            (1200, ImageFormat::JPG),
            (1200, ImageFormat::WEBP),
        ]
    );
}

#[test]
fn cross_product_with_empty_inputs() {
    let no_widths: Vec<u32> = Vec::new();
    let formats = vec![ImageFormat::JPG];
    assert!(width_format_pairs(&no_widths, &formats).is_empty());
    let widths = vec![800u32];
    let no_formats: Vec<ImageFormat> = Vec::new();
    assert!(width_format_pairs(&widths, &no_formats).is_empty());
}

#[test]
fn build_lqip_encodes_preview_bytes() {
    let preview = vec![0x61u8, 0x62, 0x63];
    let lqip = build_lqip("images/cat.png", 100, 50, &preview).expect("extension is present");
    assert_eq!(lqip.image, "data:image/png;base64,YWJj");
    assert_eq!(lqip.width, 100);
    assert_eq!(lqip.height, 50);
}

#[test]
fn build_lqip_with_empty_preview() {
    let preview: Vec<u8> = Vec::new();
    let lqip = build_lqip("cat.jpg", 7, 8, &preview).expect("extension is present");
    assert_eq!(lqip.image, "data:image/jpg;base64,");
}

#[test]
fn build_lqip_needs_an_extension() {
    let preview = vec![1u8, 2, 3];
    match build_lqip("images/cat", 10, 10, &preview) {
        Ok(_) => panic!("a path without extension should fail"),
        Err(e) => {
            assert_eq!(e.describe(), "IO error: Could not extract file extension");
        },
    }
}

#[test]
fn error_descriptions() {
    assert_eq!(
        ImageProcError::Conversion.describe(),
        "There was an error converting the image."
    );
    assert_eq!(
        ImageProcError::IO(String::from("gone")).describe(),
        "IO error: gone"
    );
}

#[test]
fn data_uri_shape() {
    assert_eq!(data_uri("png", "QUJD"), "data:image/png;base64,QUJD");
    assert_eq!(data_uri("", ""), "data:image/;base64,");
}

#[test]
fn record_conversion_keeps_fields() {
    let preview = vec![0u8];
    let lqip = build_lqip("cat.webp", 640, 480, &preview).expect("extension is present");
    let record = to_record_lqip(lqip);
    assert_eq!(record.image, "data:image/webp;base64,AA==");
    assert_eq!(record.width, 640);
    assert_eq!(record.height, 480);
}

#[test]
fn base_names_from_paths() {
    assert_eq!(base_name_of("images/cat.jpg").as_deref(), Some("cat"));
    assert_eq!(base_name_of("cat.jpg").as_deref(), Some("cat"));
    assert_eq!(base_name_of("cat").as_deref(), Some("cat"));
    assert_eq!(base_name_of("a/b/c.tar.gz").as_deref(), Some("c.tar"));
    assert_eq!(base_name_of(".bashrc").as_deref(), Some(".bashrc"));
    assert_eq!(base_name_of("dir/trailing."), Some(String::from("trailing")));
    assert_eq!(base_name_of("dir/"), None);
    assert_eq!(base_name_of(""), None);
}

#[test]
fn extensions_from_paths() {
    assert_eq!(extension_of("images/cat.jpg").as_deref(), Some("jpg"));
    assert_eq!(extension_of("a/b/c.tar.gz").as_deref(), Some("gz"));
    assert_eq!(extension_of("cat"), None);
    assert_eq!(extension_of(".bashrc"), None);
    assert_eq!(extension_of("foo.").as_deref(), Some(""));
    assert_eq!(extension_of("dir.x/plain"), None);
}

#[test]
fn decimal_rendering() {
    assert_eq!(decimal_string(0), "0");
    assert_eq!(decimal_string(7), "7");
    assert_eq!(decimal_string(800), "800");
    assert_eq!(decimal_string(4294967295), "4294967295");
}

#[test]
fn json_escaping_rules() {
    assert_eq!(json_escaped("plain"), "plain");
    assert_eq!(json_escaped("a\"b"), "a\\\"b");
    assert_eq!(json_escaped("a\\b"), "a\\\\b");
    assert_eq!(json_escaped("a\nb\rc\td"), "a\\nb\\rc\\td");
    assert_eq!(json_escaped("\u{0}\u{1f}"), "\\u0000\\u001f");
}
