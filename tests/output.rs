use raytracer_lib::image::{Image, OutputFormat};
use raytracer_lib::raytracer::default_output_file;

#[test]
fn known_extensions_are_valid() {
    assert!(Image::valid_format("output.png"));
    assert!(Image::valid_format("renders/frame.jpeg"));
    assert!(Image::valid_format("a.b.farbfeld"));
    assert!(!Image::valid_format("out.txt"));
    assert!(!Image::valid_format("png"));
    assert!(!Image::valid_format(".png"));
    assert!(!Image::valid_format("file."));
    assert!(!Image::valid_format(""));
}

#[test]
fn format_by_extension() {
    assert_eq!(Image::format("x.png"), Some(OutputFormat::Png));
    assert_eq!(Image::format("x.jpg"), Some(OutputFormat::Jpeg));
    assert_eq!(Image::format("x.jpeg"), Some(OutputFormat::Jpeg));
    assert_eq!(Image::format("x.gif"), Some(OutputFormat::Gif));
    assert_eq!(Image::format("x.webp"), Some(OutputFormat::WebP));
    assert_eq!(Image::format("x.tiff"), Some(OutputFormat::Tiff));
    assert_eq!(Image::format("x.tga"), Some(OutputFormat::Tga));
    assert_eq!(Image::format("x.bmp"), Some(OutputFormat::Bmp));
    assert_eq!(Image::format("x.ico"), Some(OutputFormat::Ico));
    assert_eq!(Image::format("x.hdr"), Some(OutputFormat::Hdr));
    assert_eq!(Image::format("x.openexr"), Some(OutputFormat::OpenExr));
    assert_eq!(Image::format("x.pnm"), Some(OutputFormat::Pnm));
    assert_eq!(Image::format("x.avif"), Some(OutputFormat::Avif));
    assert_eq!(Image::format("x.PNG"), None);
    assert_eq!(Image::format("archive.tar.gz"), None);
}

#[test]
fn extension_is_taken_from_the_file_name() {
    assert_eq!(Image::format("dir.png/"), Some(OutputFormat::Png));
    assert_eq!(Image::format("dir.png/file"), None);
    assert_eq!(Image::format("/tmp/.hidden.bmp"), Some(OutputFormat::Bmp));
    assert_eq!(Image::format("/tmp/.bmp"), None);
}

#[test]
fn image_keeps_dimensions_and_bytes() {
    let img = Image::new(2, 1, vec![255, 0, 0, 0, 255, 0]);
    assert_eq!(img.width(), 2);
    assert_eq!(img.height(), 1);
    assert_eq!(img.data(), &vec![255, 0, 0, 0, 255, 0]);
}

#[test]
fn default_output_is_png() {
    assert_eq!(default_output_file(), "output.png");
    assert!(Image::valid_format(&default_output_file()));
}
