use std::path::PathBuf;

use image_upscaler::upscaler::image_io::OutputFormat;
use image_upscaler::upscaler::{output_file_name, resolve_output};

#[test]
fn uses_chosen_format_by_default() {
    let (path, fmt) = resolve_output("/in/cat.jpg", "/out", OutputFormat::Png, false, "_x4");
    assert_eq!(fmt, OutputFormat::Png);
    assert_eq!(PathBuf::from(path), PathBuf::from("/out/cat_x4.png"));
}

#[test]
fn keeps_input_format_when_encodable() {
    let (path, fmt) = resolve_output("/in/cat.jpeg", "/out", OutputFormat::Png, true, "");
    assert_eq!(fmt, OutputFormat::Jpeg);
    assert_eq!(PathBuf::from(path), PathBuf::from("/out/cat.jpeg"));
}

#[test]
fn falls_back_when_input_format_not_encodable() {
    // GIF input can be decoded but not encoded here -> fall back to chosen.
    let (path, fmt) = resolve_output("/in/anim.gif", "/out", OutputFormat::WebP, true, "_up");
    assert_eq!(fmt, OutputFormat::WebP);
    assert_eq!(PathBuf::from(path), PathBuf::from("/out/anim_up.webp"));
}

#[test]
fn missing_stem_defaults_to_image() {
    let (path, fmt) = resolve_output("/", "/out", OutputFormat::Bmp, true, "_s");
    assert_eq!(fmt, OutputFormat::Bmp);
    assert_eq!(PathBuf::from(path), PathBuf::from("/out/image_s.bmp"));
}

#[test]
fn keeps_verbatim_uppercase_extension() {
    let (path, fmt) = resolve_output("photos/Dog.TIF", "out", OutputFormat::Png, true, "_2x");
    assert_eq!(fmt, OutputFormat::Tiff);
    assert_eq!(PathBuf::from(path), PathBuf::from("out/Dog_2x.TIF"));
}

#[test]
fn file_name_from_parts() {
    let (name, fmt) = output_file_name(Some("a"), None, OutputFormat::Jpeg, true, "-b");
    assert_eq!((name.as_str(), fmt), ("a-b.jpg", OutputFormat::Jpeg));
    let (name, fmt) = output_file_name(None, Some("webp"), OutputFormat::Png, false, "");
    assert_eq!((name.as_str(), fmt), ("image.png", OutputFormat::Png));
}

#[test]
fn output_lies_in_the_chosen_folder() {
    let (path, _) = resolve_output("/in/cat.png", "/srv/out", OutputFormat::Png, false, "_x2");
    assert!(path.starts_with("/srv/out"));
    assert_eq!(path, "/srv/out/cat_x2.png");
    let (path, _) = resolve_output("cat.png", "", OutputFormat::Png, false, "");
    assert_eq!(path, "cat.png");
    let (path, _) = resolve_output("cat.png", "/srv/out/", OutputFormat::Jpeg, false, "");
    assert_eq!(path, "/srv/out/cat.jpg");
}

#[test]
fn stems_and_extensions_follow_the_final_component() {
    let (path, fmt) = resolve_output("dir/a.b/c.JPG/", "o", OutputFormat::Png, true, "");
    assert_eq!((path.as_str(), fmt), ("o/c.JPG", OutputFormat::Jpeg));
    let (path, fmt) = resolve_output("x/.hidden", "o", OutputFormat::Bmp, true, "_s");
    assert_eq!((path.as_str(), fmt), ("o/.hidden_s.bmp", OutputFormat::Bmp));
    let (path, _) = resolve_output("x/..y.png", "o", OutputFormat::Tiff, false, "");
    assert_eq!(path, "o/..y.tiff");
}
