use image_variants::image_data::{file_name, ImageData, ImageFormat, ImageVariant, LQIPData};

fn variant(base: &str, width: u32, format: ImageFormat) -> ImageVariant {
    ImageVariant { base_name: String::from(base), width, format }
}

fn jpg() -> String {
    String::from("jpg")
}

#[test]
fn file_name_for_every_format() {
    assert_eq!(file_name("cat", 800, ImageFormat::JPG), "cat-800w.jpg");
    assert_eq!(file_name("cat", 800, ImageFormat::PNG), "cat-800w.png");
    assert_eq!(file_name("cat", 800, ImageFormat::GIF), "cat-800w.gif");
    assert_eq!(file_name("cat", 800, ImageFormat::WEBP), "cat-800w.webp");
    assert_eq!(file_name("a-b.c", 0, ImageFormat::JPG), "a-b.c-0w.jpg");
    assert_eq!(
        file_name("x", 4294967295, ImageFormat::PNG),
        "x-4294967295w.png"
    );
}

#[test]
fn add_variant_stores_expected_name() {
    let mut m = ImageData::new();
    m.add_variant(&variant("cat", 800, ImageFormat::JPG));
    let base = String::from("cat");
    assert_eq!(
        m.get_file_name(&base, 800, &jpg()).map(|s| s.as_str()),
        Some("cat-800w.jpg")
    );
}

#[test]
fn add_variant_twice_is_idempotent() {
    let mut m = ImageData::new();
    m.add_variant(&variant("cat", 800, ImageFormat::JPG));
    let first = m.serialize();
    m.add_variant(&variant("cat", 800, ImageFormat::JPG));
    let second = m.serialize();
    assert_eq!(first, second);
}

#[test]
fn insertion_order_does_not_change_lookups() {
    let descriptors = [
        ("cat", 800, ImageFormat::JPG),
        ("cat", 800, ImageFormat::WEBP),
        ("cat", 1200, ImageFormat::JPG),
        ("dog", 800, ImageFormat::JPG),
    ];
    let mut forward = ImageData::new();
    for (b, w, f) in descriptors.iter() {
        forward.add_variant(&variant(b, *w, *f));
    }
    let mut backward = ImageData::new();
    for (b, w, f) in descriptors.iter().rev() {
        backward.add_variant(&variant(b, *w, *f));
    }
    for (b, w, f) in descriptors.iter() {
        let base = String::from(*b);
        let ext = String::from(match f {
            ImageFormat::JPG => "jpg",
            ImageFormat::PNG => "png",
            ImageFormat::GIF => "gif",
            ImageFormat::WEBP => "webp",
        });
        let lhs = forward.get_file_name(&base, *w, &ext).cloned();
        let rhs = backward.get_file_name(&base, *w, &ext).cloned();
        assert!(lhs.is_some());
        assert_eq!(lhs, rhs);
    }
}

#[test]
fn serialize_empty_manifest() {
    let m = ImageData::new();
    assert_eq!(m.serialize(), "{}");
}

#[test]
fn two_images_two_widths_two_formats() {
    let mut m = ImageData::new();
    let widths = [800u32, 1200u32];
    let formats = [ImageFormat::JPG, ImageFormat::WEBP];
    for name in ["cat", "dog"] {
        m.add_record(String::from(name), None);
        for w in widths.iter() {
            for f in formats.iter() {
                m.add_variant(&variant(name, *w, *f));
            }
        }
    }
    let expected = "{\"cat\":{\"lqip\":null,\"800\":{\"jpg\":\"cat-800w.jpg\",\"webp\":\"cat-800w.webp\"},\"1200\":{\"jpg\":\"cat-1200w.jpg\",\"webp\":\"cat-1200w.webp\"}},\"dog\":{\"lqip\":null,\"800\":{\"jpg\":\"dog-800w.jpg\",\"webp\":\"dog-800w.webp\"},\"1200\":{\"jpg\":\"dog-1200w.jpg\",\"webp\":\"dog-1200w.webp\"}}}";
    assert_eq!(m.serialize(), expected);
}

#[test]
fn one_failed_attempt_leaves_the_rest() {
    let mut m = ImageData::new();
    let widths = [800u32, 1200u32];
    let formats = [ImageFormat::JPG, ImageFormat::WEBP];
    for name in ["cat", "dog"] {
        m.add_record(String::from(name), None);
        for w in widths.iter() {
            for f in formats.iter() {
                // the (dog, 1200, WEBP) attempt is the one that failed
                if name == "dog" && *w == 1200 && *f == ImageFormat::WEBP {
                    continue;
                }
                m.add_variant(&variant(name, *w, *f));
            }
        }
    }
    let dog = String::from("dog");
    let cat = String::from("cat");
    let webp = String::from("webp");
    assert!(m.get_file_name(&dog, 1200, &webp).is_none());
    assert_eq!(
        m.get_file_name(&dog, 1200, &jpg()).map(|s| s.as_str()),
        Some("dog-1200w.jpg")
    );
    assert_eq!(
        m.get_file_name(&cat, 1200, &webp).map(|s| s.as_str()),
        Some("cat-1200w.webp")
    );
    assert_eq!(
        m.get_file_name(&dog, 800, &webp).map(|s| s.as_str()),
        Some("dog-800w.webp")
    );
}

#[test]
fn lqip_failure_still_populates_variants() {
    let mut m = ImageData::new();
    // placeholder creation failed: the record is registered without one
    m.add_record(String::from("cat"), None);
    m.add_variant(&variant("cat", 800, ImageFormat::JPG));
    m.add_variant(&variant("cat", 1200, ImageFormat::JPG));
    let cat = String::from("cat");
    assert!(m.contains_record(&cat));
    assert!(m.get_lqip(&cat).is_none());
    assert!(m.get_file_name(&cat, 800, &jpg()).is_some());
    assert!(m.get_file_name(&cat, 1200, &jpg()).is_some());
    assert!(m.serialize().contains("\"lqip\":null"));
}

#[test]
fn add_record_never_overwrites_lqip() {
    let mut m = ImageData::new();
    let lqip = LQIPData { image: String::from("data:image/png;base64,AA=="), width: 3, height: 4 };
    m.add_record(String::from("cat"), Some(lqip));
    m.add_record(String::from("cat"), None);
    let other =
        LQIPData { image: String::from("data:image/png;base64,BB=="), width: 9, height: 9 };
    m.add_record(String::from("cat"), Some(other));
    let cat = String::from("cat");
    let kept = m.get_lqip(&cat).expect("placeholder should have been kept");
    assert_eq!(kept.image, "data:image/png;base64,AA==");
    assert_eq!(kept.width, 3);
    assert_eq!(kept.height, 4);
}

#[test]
fn add_record_on_existing_name_changes_nothing() {
    let mut m = ImageData::new();
    m.add_record(String::from("cat"), None);
    m.add_variant(&variant("cat", 800, ImageFormat::JPG));
    let before = m.serialize();
    m.add_record(String::from("cat"), None);
    assert_eq!(m.serialize(), before);
}

#[test]
fn serialize_escapes_special_characters() {
    let mut m = ImageData::new();
    m.add_record(String::from("a\"b\\c\n"), None);
    assert_eq!(m.serialize(), "{\"a\\\"b\\\\c\\n\":{\"lqip\":null}}");
}

#[test]
fn serialize_escapes_control_characters() {
    let mut m = ImageData::new();
    m.add_record(String::from("a\u{0001}b"), None);
    assert_eq!(m.serialize(), "{\"a\\u0001b\":{\"lqip\":null}}");
}

#[test]
fn serialize_lqip_record() {
    let mut m = ImageData::new();
    let lqip = LQIPData { image: String::from("data:image/png;base64,AA=="), width: 30, height: 20 };
    m.add_record(String::from("cat"), Some(lqip));
    assert_eq!(
        m.serialize(),
        "{\"cat\":{\"lqip\":{\"image\":\"data:image/png;base64,AA==\",\"width\":30,\"height\":20}}}"
    );
}

#[test]
fn record_results_registers_everything() {
    let mut m = ImageData::new();
    let variants = vec![
        variant("cat", 800, ImageFormat::JPG),
        variant("cat", 1200, ImageFormat::JPG),
    ];
    let lqip = LQIPData { image: String::from("data:image/jpg;base64,AA=="), width: 5, height: 6 };
    m.record_results(String::from("cat"), Some(lqip), &variants);
    let cat = String::from("cat");
    assert!(m.get_lqip(&cat).is_some());
    assert!(m.get_file_name(&cat, 800, &jpg()).is_some());
    assert!(m.get_file_name(&cat, 1200, &jpg()).is_some());
}

#[test]
fn lookups_miss_absent_entries() {
    let mut m = ImageData::new();
    m.add_variant(&variant("cat", 800, ImageFormat::JPG));
    let cat = String::from("cat");
    let dog = String::from("dog");
    let png = String::from("png");
    assert!(!m.contains_record(&dog));
    assert!(m.get_file_name(&cat, 900, &jpg()).is_none());
    assert!(m.get_file_name(&cat, 800, &png).is_none());
    assert!(m.get_file_name(&dog, 800, &jpg()).is_none());
    assert!(m.get_lqip(&dog).is_none());
}

#[test]
fn extension_tokens() {
    assert_eq!(ImageFormat::JPG.extension(), "jpg");
    assert_eq!(ImageFormat::PNG.extension(), "png");
    assert_eq!(ImageFormat::GIF.extension(), "gif");
    assert_eq!(ImageFormat::WEBP.extension(), "webp");
}
