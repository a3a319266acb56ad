use image_upscaler::upscaler::image_io::OutputFormat;

#[test]
fn extension_roundtrip() {
    for fmt in OutputFormat::ALL {
        let ext = fmt.extension();
        assert_eq!(OutputFormat::from_extension(ext), Some(fmt));
    }
}

#[test]
fn jpeg_aliases_map_to_jpeg() {
    assert_eq!(OutputFormat::from_extension("JPEG"), Some(OutputFormat::Jpeg));
    assert_eq!(OutputFormat::from_extension("jpg"), Some(OutputFormat::Jpeg));
}

#[test]
fn only_jpeg_is_lossy() {
    for fmt in OutputFormat::ALL {
        assert_eq!(fmt.is_lossy(), fmt == OutputFormat::Jpeg);
    }
}

#[test]
fn extensions_ignore_ascii_case_and_reject_unknown() {
    assert_eq!(OutputFormat::from_extension("TiF"), Some(OutputFormat::Tiff));
    assert_eq!(OutputFormat::from_extension("WebP"), Some(OutputFormat::WebP));
    assert_eq!(OutputFormat::from_extension("Bmp"), Some(OutputFormat::Bmp));
    assert_eq!(OutputFormat::from_extension("gif"), None);
    assert_eq!(OutputFormat::from_extension(""), None);
    assert_eq!(OutputFormat::from_extension("pngx"), None);
    assert_eq!(OutputFormat::from_extension("İpng"), None);
}

#[test]
fn labels_name_each_format() {
    assert_eq!(OutputFormat::Png.label(), "PNG (lossless)");
    assert_eq!(OutputFormat::Jpeg.label(), "JPEG (lossy)");
    assert_eq!(OutputFormat::WebP.label(), "WebP (lossless)");
    assert_eq!(OutputFormat::Bmp.label(), "BMP (lossless)");
    assert_eq!(OutputFormat::Tiff.label(), "TIFF (lossless)");
    assert_eq!(OutputFormat::Jpeg.extension(), "jpg");
    assert_eq!(OutputFormat::Tiff.extension(), "tiff");
}
